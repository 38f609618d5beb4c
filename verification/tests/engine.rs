//! Scan-engine behaviour on in-memory candidate sets: the caller reads
//! content and answers hash requests, exactly as a scan driver does.

use d2fn::{checksum_bytes, CompareMode, Duplicate, DuplicateFile, DuplicateGroup, D2fnPath, File, FileMetadata, HashVal, NoFilter, PushOutcome, ScanFilter};

/// An in-memory candidate: path bytes, inode, content.
struct Candidate {
    path: Vec<u8>,
    ino: u64,
    content: Vec<u8>,
}

fn meta(ino: u64, size: u64) -> FileMetadata {
    FileMetadata { ino, link_count: 1, size, blocks: (size + 511) / 512 }
}

fn record(c: &Candidate) -> File {
    File { path: c.path.clone(), metadata: meta(c.ino, c.content.len() as u64) }
}

/// Drives one candidate through the engine, answering any hash request
/// from the candidate table. Returns how many checksums were computed.
fn push_one(engine: &mut Duplicate<NoFilter>, all: &[Candidate], c: &Candidate, cs: usize) -> usize {
    let mut hashed = 0;
    match engine.push(record(c), cs) {
        PushOutcome::NeedsHash(req) => {
            let h_prev: Option<HashVal> = req.previous.map(|p| {
                hashed += 1;
                let prev_path = engine.records[p].path.clone();
                let prev = all.iter().find(|x| x.path == prev_path).unwrap();
                checksum_bytes(&prev.content, CompareMode::Part(req.window))
            });
            hashed += 1;
            let h_cur = checksum_bytes(&c.content, CompareMode::Part(req.window));
            engine.supply_hashes(h_cur, h_prev);
        }
        _ => {}
    }
    hashed
}

fn scan(engine: &mut Duplicate<NoFilter>, all: &[Candidate], cs: usize) -> usize {
    let mut hashed = 0;
    for c in all {
        hashed += push_one(engine, all, c, cs);
    }
    hashed
}

/// Deterministic pseudo-random bytes.
fn bytes(seed: u64, n: usize) -> Vec<u8> {
    let mut v = Vec::with_capacity(n);
    let mut x = seed.wrapping_mul(6364136223846793005).wrapping_add(1442695040888963407);
    for _ in 0..n {
        x = x.wrapping_mul(6364136223846793005).wrapping_add(1442695040888963407);
        v.push((x >> 56) as u8);
    }
    v
}

/// Group paths, sorted, for order-insensitive comparison.
fn group_paths(engine: &Duplicate<NoFilter>) -> Vec<Vec<Vec<u8>>> {
    let mut out: Vec<Vec<Vec<u8>>> = engine
        .result()
        .iter()
        .map(|g| {
            let mut paths: Vec<Vec<u8>> = g.iter().map(|&i| engine.records[i].path.clone()).collect();
            paths.sort();
            paths
        })
        .collect();
    out.sort();
    out
}

const MIB: usize = 1024 * 1024;

#[test]
fn basic_duplication() {
    // two identical 2 MiB files and one different: exactly one group of two
    let shared = bytes(7, 2 * MIB);
    let all = vec![
        Candidate { path: b"/t/a.pdf".to_vec(), ino: 1, content: shared.clone() },
        Candidate { path: b"/t/b.pdf".to_vec(), ino: 2, content: shared },
        Candidate { path: b"/t/c.pdf".to_vec(), ino: 3, content: bytes(8, 2 * MIB) },
    ];
    let mut engine = Duplicate::new(b"/t".to_vec());
    scan(&mut engine, &all, MIB);
    let groups = engine.result();
    assert_eq!(groups.len(), 1);
    assert_eq!(groups[0], vec![0, 1]);
    assert_eq!(engine.records[0].path, b"/t/a.pdf".to_vec());
    assert_eq!(engine.records[1].path, b"/t/b.pdf".to_vec());
    // the inventory image holds exactly that group
    let out: Vec<DuplicateGroup> = groups
        .iter()
        .map(|g| DuplicateGroup {
            files: g
                .iter()
                .map(|&i| DuplicateFile {
                    ino: engine.records[i].metadata.ino,
                    path: D2fnPath::new(engine.records[i].path.clone()),
                })
                .collect(),
        })
        .collect();
    let mut w = d2fn::InventoryWriter::create();
    w.export(&out).unwrap();
    let image = w.into_bytes();
    let back = d2fn::decode_inventory(&image).unwrap();
    assert_eq!(back.len(), 1);
    assert_eq!(back[0].files.len(), 2);
    assert_eq!(back[0].files[0].ino, 1);
    assert_eq!(back[0].files[0].path.bytes(), &b"/t/a.pdf".to_vec());
    assert_eq!(back[0].files[1].ino, 2);
}

#[test]
fn prefix_sharing_full_verify_splits() {
    // 3 MiB files sharing the first 1 MiB: grouped without verify,
    // dropped by verify, with a conflict count of 2
    let prefix = bytes(21, MIB);
    let mut one = prefix.clone();
    one.extend_from_slice(&bytes(22, 2 * MIB));
    let mut two = prefix;
    two.extend_from_slice(&bytes(23, 2 * MIB));
    let all = vec![
        Candidate { path: b"/t/x.bin".to_vec(), ino: 10, content: one.clone() },
        Candidate { path: b"/t/y.bin".to_vec(), ino: 11, content: two.clone() },
    ];
    let mut engine = Duplicate::new(b"/t".to_vec());
    scan(&mut engine, &all, MIB);
    let groups = engine.result();
    assert_eq!(groups.len(), 1);
    assert_eq!(groups[0].len(), 2);
    let cands = engine.verify_candidates();
    assert_eq!(cands.len(), 2);
    let assignment: Vec<(usize, HashVal)> = cands
        .iter()
        .map(|&i| {
            let c = if engine.records[i].path == b"/t/x.bin".to_vec() { &one } else { &two };
            (i, checksum_bytes(c, CompareMode::Full))
        })
        .collect();
    let conflicts = engine.verify(&assignment);
    assert_eq!(conflicts, 2);
    assert!(engine.result().is_empty());
}

#[test]
fn verify_keeps_true_duplicates() {
    // identical full content: verify leaves the group in place
    let shared = bytes(31, 64);
    let all = vec![
        Candidate { path: b"/t/p.dat".to_vec(), ino: 20, content: shared.clone() },
        Candidate { path: b"/t/q.dat".to_vec(), ino: 21, content: shared.clone() },
    ];
    let mut engine = Duplicate::new(b"/t".to_vec());
    scan(&mut engine, &all, 16);
    let cands = engine.verify_candidates();
    let assignment: Vec<(usize, HashVal)> = cands
        .iter()
        .map(|&i| (i, checksum_bytes(&shared, CompareMode::Full)))
        .collect();
    let conflicts = engine.verify(&assignment);
    assert_eq!(conflicts, 0);
    let groups = engine.result();
    assert_eq!(groups.len(), 1);
    assert_eq!(groups[0].len(), 2);
}

#[test]
fn hard_link_idempotence() {
    // one inode behind two names: the second push is dropped silently
    let content = bytes(41, 128);
    let all = vec![
        Candidate { path: b"/t/a".to_vec(), ino: 77, content: content.clone() },
        Candidate { path: b"/t/b".to_vec(), ino: 77, content },
    ];
    let mut engine = Duplicate::new(b"/t".to_vec());
    let mut outcomes = Vec::new();
    for c in &all {
        match engine.push(record(c), 16) {
            PushOutcome::NeedsHash(_) => panic!("no hashing may happen here"),
            o => outcomes.push(o),
        }
    }
    assert!(matches!(outcomes[0], PushOutcome::Recorded));
    assert!(matches!(outcomes[1], PushOutcome::SkippedInode));
    assert!(engine.result().is_empty());
    assert_eq!(engine.records.len(), 1);
}

#[test]
fn empty_file_rejection() {
    // empty files never enter the record store
    let mut engine = Duplicate::new(b"/t".to_vec());
    for ino in 1..=3u64 {
        let f = File { path: format!("/t/e{}.log", ino).into_bytes(), metadata: meta(ino, 0) };
        assert!(matches!(engine.push(f, 16), PushOutcome::SkippedEmpty));
    }
    assert!(engine.result().is_empty());
    assert_eq!(engine.records.len(), 0);
}

#[test]
fn large_bucket_hashes_each_file_once() {
    // 1000 files of one (extension, size) bucket with distinct content:
    // 1000 singleton partial entries, each file hashed exactly once
    let mut all = Vec::new();
    for i in 0..1000u64 {
        all.push(Candidate {
            path: format!("/t/f{}.bak", i).into_bytes(),
            ino: 1000 + i,
            content: bytes(100 + i, 64),
        });
    }
    let mut engine = Duplicate::new(b"/t".to_vec());
    let hashed = scan(&mut engine, &all, 16);
    assert_eq!(hashed, 1000);
    assert!(engine.result().is_empty());
    assert_eq!(engine.records.len(), 1000);
}

#[test]
fn rescan_makes_no_change() {
    // scanning the same tree twice yields identical group sets
    let shared = bytes(51, 256);
    let all = vec![
        Candidate { path: b"/t/a.iso".to_vec(), ino: 1, content: shared.clone() },
        Candidate { path: b"/t/b.iso".to_vec(), ino: 2, content: shared },
        Candidate { path: b"/t/c.iso".to_vec(), ino: 3, content: bytes(52, 256) },
    ];
    let mut engine = Duplicate::new(b"/t".to_vec());
    scan(&mut engine, &all, 64);
    let first = group_paths(&engine);
    let hashed_again = scan(&mut engine, &all, 64);
    assert_eq!(hashed_again, 0);
    assert_eq!(group_paths(&engine), first);
}

#[test]
fn duplicated_counter_tracks_groups() {
    let shared = bytes(61, 32);
    let all = vec![
        Candidate { path: b"/t/1.gz".to_vec(), ino: 1, content: shared.clone() },
        Candidate { path: b"/t/2.gz".to_vec(), ino: 2, content: shared.clone() },
        Candidate { path: b"/t/3.gz".to_vec(), ino: 3, content: shared },
    ];
    let mut engine = Duplicate::new(b"/t".to_vec());
    scan(&mut engine, &all, 16);
    assert_eq!(engine.status.duplicated, 2);
    let groups = engine.result();
    assert_eq!(groups.len(), 1);
    assert_eq!(groups[0], vec![0, 1, 2]);
}

#[test]
fn custom_filter_keeps_records() {
    let mut engine = Duplicate::new(b"/t".to_vec());
    let f = File { path: b"/t/k.pdf".to_vec(), metadata: meta(5, 10) };
    engine.push(f, 16);
    let filtered = engine.custom_filter(d2fn::DefaultFilter::new());
    assert_eq!(filtered.records.len(), 1);
    assert_eq!(filtered.status.duplicated, 0);
    let keep = File { path: b"/t/m.pdf".to_vec(), metadata: meta(6, 11) };
    let drop = File { path: b"/t/m.xyz".to_vec(), metadata: meta(7, 11) };
    assert!(filtered.accepts(&keep));
    assert!(!filtered.accepts(&drop));
}

#[test]
fn note_scanned_counts() {
    let mut engine = Duplicate::new(b"/t".to_vec());
    engine.note_scanned(b"/t/x".to_vec());
    engine.note_scanned(b"/t/y".to_vec());
    assert_eq!(engine.status.scanned, 2);
    assert_eq!(engine.status.last_file, b"/t/y".to_vec());
}

#[test]
fn cancelled_request_tolerates_read_failure() {
    // a failed read abandons the step: the record and inode stay, the
    // bucket is left as it was, and scanning goes on
    let shared = bytes(71, 64);
    let all = vec![
        Candidate { path: b"/t/r1.rar".to_vec(), ino: 1, content: shared.clone() },
        Candidate { path: b"/t/r2.rar".to_vec(), ino: 2, content: shared.clone() },
        Candidate { path: b"/t/r3.rar".to_vec(), ino: 3, content: shared },
    ];
    let mut engine = Duplicate::new(b"/t".to_vec());
    push_one(&mut engine, &all, &all[0], 16);
    // the second collides; pretend its read failed
    match engine.push(record(&all[1]), 16) {
        PushOutcome::NeedsHash(_) => engine.cancel_request(),
        _ => panic!("expected a hash request"),
    }
    assert_eq!(engine.records.len(), 2);
    // the third still pairs with the first, whose slot was never consumed
    push_one(&mut engine, &all, &all[2], 16);
    let groups = engine.result();
    assert_eq!(groups.len(), 1);
    assert_eq!(groups[0], vec![0, 2]);
}

#[test]
fn map_record_vec_returns_the_named_records() {
    let shared = bytes(81, 64);
    let all = vec![
        Candidate { path: b"/t/m1.wav".to_vec(), ino: 1, content: shared.clone() },
        Candidate { path: b"/t/m2.wav".to_vec(), ino: 2, content: shared },
    ];
    let mut engine = Duplicate::new(b"/t".to_vec());
    scan(&mut engine, &all, 16);
    let groups = engine.result();
    let refs = engine.map_record_vec(&groups[0]);
    assert_eq!(refs.len(), 2);
    assert_eq!(refs[0].path, b"/t/m1.wav".to_vec());
    assert_eq!(refs[1].path, b"/t/m2.wav".to_vec());
}
