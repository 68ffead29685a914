//! Manifest serialization, parsing, and the round trip.

use lupdate_core::hashes::md5_bytes;
use lupdate_core::manifest::{Manifest, VersionInfo, parse_manifest, serialize_manifest,
    manifest_round_trip};
use lupdate_core::meta::{Digest, FileEntry, FileMeta};
use lupdate_core::pathmap::PathMap;

fn b(s: &str) -> Vec<u8> {
    s.as_bytes().to_vec()
}

fn digest_of(data: &[u8]) -> Digest {
    md5_bytes(data)
}

fn entry(raw: &[u8], comp: &[u8], rawsize: u32, compsize: u32, line: &[u8]) -> FileEntry {
    FileEntry {
        raw: FileMeta { size: rawsize, hash: digest_of(raw) },
        compressed: FileMeta { size: compsize, hash: digest_of(comp) },
        checksum: digest_of(line),
    }
}

fn sample_manifest() -> Manifest {
    let mut files = PathMap::new();
    files.insert(b("client\\res\\b.txt"), entry(b"hello", b"zip1", 5, 4, b"l1"));
    files.insert(b("client\\res\\a.txt"), entry(b"hello", b"zip1", 5, 4, b"l0"));
    Manifest {
        version: VersionInfo { number: 32, hash: md5_bytes(b"32"), name: b("Name") },
        files,
    }
}

#[test]
fn manifest_serializes_sorted_sections() {
    let m = sample_manifest();
    let text = serialize_manifest(&m);
    let s = String::from_utf8(text).unwrap();
    let lines: Vec<&str> = s.lines().collect();
    assert_eq!(lines[0], "[version]");
    // md5 of "32" is the version hash the manifest records
    assert_eq!(lines[1], "32,6364d3f0f495b6ab9dcf8d3b5c6e0b01,Name");
    assert_eq!(lines[2], "[files]");
    assert!(lines[3].starts_with("client\\res\\a.txt,5,5d41402abc4b2a76b9719d911017c592,4,"));
    assert!(lines[4].starts_with("client\\res\\b.txt,5,"));
    assert_eq!(lines.len(), 5);
    assert!(s.ends_with('\n'));
}

#[test]
fn manifest_round_trip_preserves_structure() {
    let m = sample_manifest();
    let text = serialize_manifest(&m);
    let m2 = manifest_round_trip(&m).unwrap();
    assert_eq!(serialize_manifest(&m2), text);
    assert_eq!(m2.version.number, 32);
    assert_eq!(m2.version.name, b("Name"));
    assert_eq!(m2.files.entries.len(), 2);
    assert_eq!(m2.files.entries[0].path, b("client\\res\\a.txt"));
    assert_eq!(m2.files.entries[1].path, b("client\\res\\b.txt"));
    assert_eq!(m2.files.entries[0].entry.raw.size, 5);
    assert_eq!(m2.files.entries[0].entry.raw.hash.bytes, digest_of(b"hello").bytes);
    assert_eq!(m2.files.entries[0].entry.checksum.bytes, digest_of(b"l0").bytes);
}

#[test]
fn manifest_parse_rejects_malformed_text() {
    assert!(parse_manifest(b"").is_none());
    assert!(parse_manifest(b"[version]\n").is_none());
    assert!(parse_manifest(b"[files]\n[version]\n1,00000000000000000000000000000000,x\n").is_none());
    assert!(parse_manifest(b"[version]\nnope\n[files]\n").is_none());
    // a file line with a bad digest fails the parse
    let bad = b"[version]\n1,34173cb38f07f89ddbebc2ac9128303f,x\n[files]\na,1,zz,1,00000000000000000000000000000000,00000000000000000000000000000000\n";
    assert!(parse_manifest(bad).is_none());
}

#[test]
fn manifest_parse_empty_table() {
    let text = b"[version]\n82,34173cb38f07f89ddbebc2ac9128303f,0\n[files]\n";
    let m = parse_manifest(text).unwrap();
    assert_eq!(m.version.number, 82);
    assert_eq!(m.version.name, b("0"));
    assert_eq!(m.files.entries.len(), 0);
}

#[test]
fn manifest_version_name_may_hold_commas() {
    let mut m = sample_manifest();
    m.version.name = b("a,b,c");
    let m2 = manifest_round_trip(&m).unwrap();
    assert_eq!(m2.version.name, b("a,b,c"));
}

#[test]
fn manifest_parse_is_strict_about_canonical_text() {
    // uppercase hex digits are not the canonical digest form
    let upper = b"[version]\n1,34173CB38F07F89DDBEBC2AC9128303F,x\n[files]\n";
    assert!(parse_manifest(upper).is_none());
    // a redundant leading zero is not the canonical number form
    let zero = b"[version]\n01,34173cb38f07f89ddbebc2ac9128303f,x\n[files]\n";
    assert!(parse_manifest(zero).is_none());
}

#[test]
fn manifest_parse_rejects_unsorted_entries() {
    let m = sample_manifest();
    let text = serialize_manifest(&m);
    let s = String::from_utf8(text).unwrap();
    let lines: Vec<&str> = s.lines().collect();
    // swap the two entry lines: the table is no longer sorted
    let swapped = format!("{}\n{}\n{}\n{}\n{}\n", lines[0], lines[1], lines[2], lines[4], lines[3]);
    assert!(parse_manifest(swapped.as_bytes()).is_none());
    // a duplicated entry line is not sorted either
    let doubled = format!("{}\n{}\n{}\n{}\n{}\n", lines[0], lines[1], lines[2], lines[3], lines[3]);
    assert!(parse_manifest(doubled.as_bytes()).is_none());
}

#[test]
fn manifest_parse_reserializes_to_its_input() {
    let text = b"[version]\n82,34173cb38f07f89ddbebc2ac9128303f,Name,with,commas\n[files]\na,1,5d41402abc4b2a76b9719d911017c592,1,5d41402abc4b2a76b9719d911017c592,5d41402abc4b2a76b9719d911017c592\n";
    let m = parse_manifest(text).unwrap();
    assert_eq!(serialize_manifest(&m), text.to_vec());
}
