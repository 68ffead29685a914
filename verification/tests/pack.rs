//! Archive assembly planning and the open-once registry.

use lupdate_core::cache::hash_to_path;
use lupdate_core::hashes::md5_bytes;
use lupdate_core::manifest::{Manifest, VersionInfo};
use lupdate_core::matcher::Matcher;
use lupdate_core::meta::{FileEntry, FileMeta};
use lupdate_core::pack::{PackIndex, PackItem, PkiRef, Registry, SourceLoc, find_ref, plan_pack,
    select_archives, win_join};
use lupdate_core::pathmap::PathMap;

fn b(s: &str) -> Vec<u8> {
    s.as_bytes().to_vec()
}

fn meta(data: &[u8]) -> FileMeta {
    FileMeta { size: data.len() as u32, hash: md5_bytes(data) }
}

fn entry(raw: &[u8], comp: &[u8]) -> FileEntry {
    FileEntry { raw: meta(raw), compressed: meta(comp), checksum: md5_bytes(b"line") }
}

fn manifest_with(paths: &[&str]) -> Manifest {
    let mut files = PathMap::new();
    for p in paths {
        files.insert(b(p), entry(b"hello", b"zip"));
    }
    Manifest {
        version: VersionInfo { number: 1, hash: md5_bytes(b"1"), name: b("v") },
        files,
    }
}

#[test]
fn pack_plans_store_sourced_entry() {
    // the placement index marks a.txt as packed, compressed, into "main"
    let crc = assembly_pack::crc::calculate_crc(b"client\\res\\a.txt");
    let idx = PackIndex {
        archives: vec![b("client\\res\\pack\\main.pk")],
        files: vec![PkiRef { crc, category: 1, pack_file: 0 }],
    };
    let filter = Matcher::new(&vec![String::from("*main*")], &Vec::new()).unwrap();
    let sel = select_archives(&idx.archives, &filter);
    assert_eq!(sel, vec![true]);
    let m = manifest_with(&["client\\res\\a.txt"]);
    let plan: Vec<PackItem> =
        plan_pack(&m, &idx, &sel, b"cache/p".as_slice(), b"client\\".as_slice()).unwrap();
    assert_eq!(plan.len(), 1);
    let it = &plan[0];
    assert_eq!(it.crc, crc);
    assert_eq!(it.archive, 0);
    assert!(it.compressed);
    match &it.source {
        SourceLoc::Store(p) => {
            let mut expected = b("cache/p/");
            expected.extend_from_slice(hash_to_path(&meta(b"hello").hash).as_slice());
            assert_eq!(p, &expected);
        },
        SourceLoc::Project(_) => panic!("a compressed entry streams from the store"),
    }
    assert_eq!(it.raw.size, 5);
    assert_eq!(it.compressed_meta.size, 3);
}

#[test]
fn pack_leaves_unmatched_entries_loose() {
    let crc = assembly_pack::crc::calculate_crc(b"a.txt");
    let idx = PackIndex {
        archives: vec![b("main.pk"), b("other.pk")],
        files: vec![PkiRef { crc, category: 1, pack_file: 1 }],
    };
    // the filter selects only main.pk; a.txt belongs to other.pk
    let filter = Matcher::new(&vec![String::from("main.pk")], &Vec::new()).unwrap();
    let sel = select_archives(&idx.archives, &filter);
    assert_eq!(sel, vec![true, false]);
    let m = manifest_with(&["a.txt", "not-indexed.txt"]);
    let plan = plan_pack(&m, &idx, &sel, b"out".as_slice(), b"".as_slice()).unwrap();
    assert!(plan.is_empty());
}

#[test]
fn pack_sources_raw_entry_from_project() {
    let crc = assembly_pack::crc::calculate_crc(b"client\\res\\a.txt");
    let idx = PackIndex {
        archives: vec![b("main.pk")],
        files: vec![PkiRef { crc, category: 0x100, pack_file: 0 }],
    };
    let filter = Matcher::new(&Vec::new(), &Vec::new()).unwrap();
    let sel = select_archives(&idx.archives, &filter);
    let m = manifest_with(&["client\\res\\a.txt"]);
    let plan = plan_pack(&m, &idx, &sel, b"out".as_slice(), b"client\\".as_slice()).unwrap();
    assert_eq!(plan.len(), 1);
    // the category's low byte is clear: raw storage, read the project file
    assert!(!plan[0].compressed);
    match &plan[0].source {
        SourceLoc::Project(p) => assert_eq!(p, &b("res\\a.txt")),
        SourceLoc::Store(_) => panic!("a raw entry streams from the project"),
    }
}

#[test]
fn pack_fails_on_unresolvable_loose_path() {
    let crc = assembly_pack::crc::calculate_crc(b"elsewhere\\a.txt");
    let idx = PackIndex {
        archives: vec![b("main.pk")],
        files: vec![PkiRef { crc, category: 0, pack_file: 0 }],
    };
    let filter = Matcher::new(&Vec::new(), &Vec::new()).unwrap();
    let sel = select_archives(&idx.archives, &filter);
    let m = manifest_with(&["elsewhere\\a.txt"]);
    match plan_pack(&m, &idx, &sel, b"out".as_slice(), b"client\\".as_slice()) {
        Err(err) => assert_eq!(err, b("elsewhere\\a.txt")),
        Ok(_) => panic!("a loose path without the prefix must fail the plan"),
    }
}

#[test]
fn pack_find_ref_returns_first_match() {
    let files = vec![
        PkiRef { crc: 7, category: 0, pack_file: 0 },
        PkiRef { crc: 9, category: 1, pack_file: 1 },
        PkiRef { crc: 7, category: 2, pack_file: 2 },
    ];
    let hit = find_ref(&files, 7).unwrap();
    assert_eq!(hit.category, 0);
    assert!(find_ref(&files, 8).is_none());
}

#[test]
fn pack_registry_opens_each_archive_once() {
    let mut reg = Registry::new();
    let (i0, fresh0) = reg.get_or_open(4);
    assert_eq!((i0, fresh0), (0, true));
    let (i1, fresh1) = reg.get_or_open(9);
    assert_eq!((i1, fresh1), (1, true));
    // a second reference reuses the open archive
    let (i2, fresh2) = reg.get_or_open(4);
    assert_eq!((i2, fresh2), (0, false));
    assert_eq!(reg.count(), 2);
}

#[test]
fn pack_win_join_builds_real_path() {
    let p = win_join(b"proj".as_slice(), b"res\\pack\\main.pk".as_slice());
    assert_eq!(p, b("proj/res/pack/main.pk"));
}
