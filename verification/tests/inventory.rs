//! Inventory codec behaviour: exact bytes, round trips, and failure on
//! ill-formed images.

use d2fn::{decode_inventory, D2fnPath, DuplicateFile, DuplicateGroup, InventoryError, InventoryReader, InventoryWriter};

fn group(files: Vec<(u64, &[u8])>) -> DuplicateGroup {
    DuplicateGroup {
        files: files
            .into_iter()
            .map(|(ino, p)| DuplicateFile { ino, path: D2fnPath::new(p.to_vec()) })
            .collect(),
    }
}

fn generate_test_data() -> Vec<DuplicateGroup> {
    let file1 = "file1.txt".as_bytes();
    let file2 = "file2.txt".as_bytes();
    let file3 = "中文字符.txt".as_bytes();
    let file4 = "符号(x).txt".as_bytes();
    let file5 = "file5\0.txt".as_bytes();
    vec![
        group(vec![(1, file1), (2, file2), (3, file3)]),
        group(vec![(4, file4), (5, file5)]),
    ]
}

#[test]
fn test_d2fn_path() {
    let dataset = generate_test_data();
    let mut writer = InventoryWriter::create();
    writer.export(&dataset).unwrap();
    let image = writer.into_bytes();

    let mut reader = InventoryReader::open(image).unwrap();
    println!("len(groups) = {}", reader.total());
    assert_eq!(reader.total(), 2);
    let mut seen = Vec::new();
    while let Some(g) = reader.next() {
        let g = g.unwrap();
        for item in &g.files {
            println!("({}): {}", item.ino, String::from_utf8_lossy(item.path.bytes()));
        }
        seen.push(g);
    }
    assert_eq!(seen.len(), 2);
    let expect = generate_test_data();
    for (a, b) in seen.iter().zip(expect.iter()) {
        assert_eq!(a.files.len(), b.files.len());
        for (fa, fb) in a.files.iter().zip(b.files.iter()) {
            assert_eq!(fa.ino, fb.ino);
            assert_eq!(fa.path.bytes(), fb.path.bytes());
        }
    }
}

#[test]
fn exact_image_bytes() {
    // one group, one file: every byte of the image pinned down
    let gs = vec![group(vec![(5, b"ab")])];
    let mut w = InventoryWriter::create();
    w.export(&gs).unwrap();
    let image = w.into_bytes();
    let expected: Vec<u8> = vec![
        1, 6, 1, 0, 0, 0, // header: version, offset, count
        12, 0, 0, 0, // record length
        1, // one file
        5, 0, 0, 0, 0, 0, 0, 0, // inode, little endian
        2, b'a', b'b', // path length, path bytes
    ];
    assert_eq!(image, expected);
}

#[test]
fn empty_inventory_bytes() {
    let mut w = InventoryWriter::create();
    w.export(&Vec::new()).unwrap();
    assert_eq!(w.into_bytes(), vec![1, 6, 0, 0, 0, 0]);
}

#[test]
fn placeholder_reads_as_empty() {
    // an abandoned image holds the zero placeholder: a reader sees no groups
    let w = InventoryWriter::create();
    let image = w.into_bytes();
    let mut r = InventoryReader::open(image).unwrap();
    assert_eq!(r.total(), 0);
    assert!(r.next().is_none());
}

#[test]
fn non_utf8_path_round_trip() {
    // a name holding 0xFF 0xFE survives byte for byte
    let mut weird = b"/t/".to_vec();
    weird.push(0xFF);
    weird.push(0xFE);
    weird.extend_from_slice(b"garbage");
    let gs = vec![group(vec![(9, &weird), (10, b"/t/pair")])];
    let mut w = InventoryWriter::create();
    w.export(&gs).unwrap();
    let back = decode_inventory(&w.into_bytes()).unwrap();
    assert_eq!(back[0].files[0].path.bytes(), &weird);
}

#[test]
fn long_path_uses_wide_length() {
    // a path longer than 250 bytes forces the two-byte length form
    let long: Vec<u8> = std::iter::repeat(b'x').take(300).collect();
    let gs = vec![group(vec![(1, &long), (2, b"/t/o")])];
    let mut w = InventoryWriter::create();
    w.export(&gs).unwrap();
    let image = w.into_bytes();
    let back = decode_inventory(&image).unwrap();
    assert_eq!(back[0].files[0].path.bytes(), &long);
    // the length is encoded as a tag byte and a 16-bit value
    assert_eq!(image[6 + 4 + 1 + 8], 251);
    assert_eq!(image[6 + 4 + 1 + 8 + 1], 44); // 300 = 44 + 256
    assert_eq!(image[6 + 4 + 1 + 8 + 2], 1);
}

#[test]
fn truncated_image_is_malformed() {
    let gs = vec![group(vec![(5, b"ab"), (6, b"cd")])];
    let mut w = InventoryWriter::create();
    w.export(&gs).unwrap();
    let mut image = w.into_bytes();
    image.truncate(image.len() - 3);
    assert_eq!(decode_inventory(&image).unwrap_err(), InventoryError::Malformed);
}

#[test]
fn short_header_is_malformed() {
    let image = vec![1u8, 6, 1];
    assert!(decode_inventory(&image).is_err());
    assert!(InventoryReader::open(image).is_err());
}

#[test]
fn reader_reports_bad_record() {
    // a count of one over an empty body fails at the first record
    let image = vec![1u8, 6, 1, 0, 0, 0];
    let mut r = InventoryReader::open(image).unwrap();
    assert_eq!(r.total(), 1);
    match r.next() {
        Some(Err(InventoryError::Malformed)) => {}
        other => panic!("unexpected: {:?}", other.map(|x| x.map(|g| g.files.len()))),
    }
}

#[test]
fn reader_header_fields() {
    let gs = vec![group(vec![(1, b"/t/h1"), (2, b"/t/h2")])];
    let mut w = InventoryWriter::create();
    w.export(&gs).unwrap();
    let r = InventoryReader::open(w.into_bytes()).unwrap();
    assert_eq!(r.header.version, 1);
    assert_eq!(r.header.offset, 6);
    assert_eq!(r.header.count, 1);
}
