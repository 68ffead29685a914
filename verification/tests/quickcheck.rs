//! Quickcheck index persistence and the fingerprint index.

use lupdate_core::hashes::md5_bytes;
use lupdate_core::meta::{Digest, FileMeta};
use lupdate_core::quickcheck::{QcMap, QcRecord, build_index, parse_quickcheck,
    quickcheck_round_trip, serialize_quickcheck};

fn b(s: &str) -> Vec<u8> {
    s.as_bytes().to_vec()
}

fn rec(path: &str, mtime: Option<u64>, size: u32, data: &[u8]) -> QcRecord {
    QcRecord { path: b(path), mtime, meta: FileMeta { size, hash: md5_bytes(data) } }
}

#[test]
fn quickcheck_serializes_lines() {
    let records = vec![rec("a.txt", Some(1700000000), 5, b"hello"), rec("b.txt", None, 2, b"hi")];
    let text = serialize_quickcheck(&records);
    let s = String::from_utf8(text).unwrap();
    let lines: Vec<&str> = s.lines().collect();
    assert_eq!(lines[0], "a.txt,1700000000,5,5d41402abc4b2a76b9719d911017c592");
    assert_eq!(lines[1], "b.txt,,2,49f68a5c8493ec2c0bf489821c21fc3b");
    assert_eq!(lines.len(), 2);
}

#[test]
fn quickcheck_round_trip_keeps_timed_records() {
    let records = vec![
        rec("a.txt", Some(100), 5, b"hello"),
        rec("no-time.txt", None, 1, b"x"),
        rec("b.txt", Some(200), 2, b"hi"),
    ];
    let text = serialize_quickcheck(&records);
    let back = parse_quickcheck(text.as_slice()).unwrap();
    // the record without a modification time is silently dropped
    assert_eq!(back.len(), 2);
    assert_eq!(back[0].path, b("a.txt"));
    assert_eq!(back[0].mtime, Some(100));
    assert_eq!(back[0].meta.size, 5);
    assert_eq!(back[1].path, b("b.txt"));
}

#[test]
fn quickcheck_drops_unparsable_mtime_line() {
    let text = b"a.txt,notanumber,5,5d41402abc4b2a76b9719d911017c592\nb.txt,7,2,49f68a5c8493ec2c0bf489821c21fc3b\n";
    let back = parse_quickcheck(text).unwrap();
    assert_eq!(back.len(), 1);
    assert_eq!(back[0].path, b("b.txt"));
}

#[test]
fn quickcheck_fails_on_malformed_size_or_hash() {
    assert!(parse_quickcheck(b"a.txt,7,notasize,5d41402abc4b2a76b9719d911017c592\n").is_none());
    assert!(parse_quickcheck(b"a.txt,7,5,shorthash\n").is_none());
    assert!(parse_quickcheck(b"lonelyfieldwithoutcommas\n").is_none());
}

#[test]
fn quickcheck_index_lookup_and_consume() {
    let records = vec![rec("a.txt", Some(100), 5, b"hello"), rec("b.txt", Some(200), 2, b"hi")];
    let mut index: QcMap = build_index(records);
    assert_eq!(index.len(), 2);
    let crc = assembly_pack::crc::calculate_crc(b"a.txt");
    let hit = index.remove(crc).unwrap();
    assert_eq!(hit.path, b("a.txt"));
    assert_eq!(hit.mtime, Some(100));
    assert!(index.remove(crc).is_none());
    assert_eq!(index.len(), 1);
}

#[test]
fn quickcheck_index_later_record_wins() {
    let records = vec![rec("same.txt", Some(1), 1, b"one"), rec("same.txt", Some(2), 2, b"two")];
    let mut index = build_index(records);
    let crc = assembly_pack::crc::calculate_crc(b"same.txt");
    let hit = index.remove(crc).unwrap();
    assert_eq!(hit.mtime, Some(2));
    assert_eq!(index.len(), 0);
}

#[test]
fn quickcheck_into_records_sorted_by_fingerprint() {
    let records = vec![
        rec("a.txt", Some(1), 1, b"one"),
        rec("b.txt", Some(2), 2, b"two"),
        rec("c.txt", Some(3), 3, b"three"),
    ];
    let index = build_index(records);
    let out = index.into_records();
    assert_eq!(out.len(), 3);
    let crcs: Vec<u32> = out
        .iter()
        .map(|r| assembly_pack::crc::calculate_crc(r.path.as_slice()))
        .collect();
    let mut sorted = crcs.clone();
    sorted.sort();
    assert_eq!(crcs, sorted);
}

#[test]
fn md5_binding_matches_reference_digest() {
    // the canonical MD5 of the empty input
    let d: Digest = md5_bytes(b"");
    let expected: Vec<u8> = vec![
        0xd4, 0x1d, 0x8c, 0xd9, 0x8f, 0x00, 0xb2, 0x04, 0xe9, 0x80, 0x09, 0x98, 0xec, 0xf8,
        0x42, 0x7e,
    ];
    assert_eq!(d.bytes, expected);
}

#[test]
fn quickcheck_round_trip_function() {
    let records = vec![rec("a.txt", Some(100), 5, b"hello"), rec("skip.txt", None, 1, b"x")];
    let back = quickcheck_round_trip(&records).unwrap();
    assert_eq!(back.len(), 1);
    assert_eq!(back[0].path, b("a.txt"));
    assert_eq!(back[0].meta.hash.bytes, md5_bytes(b"hello").bytes);
}

#[test]
fn quickcheck_accepts_noncanonical_numbers() {
    // a leading zero still parses as a number, so the record is kept
    let text = b"a.txt,007,5,5d41402abc4b2a76b9719d911017c592\n";
    let back = parse_quickcheck(text).unwrap();
    assert_eq!(back.len(), 1);
    assert_eq!(back[0].mtime, Some(7));
}
