//! Cache engine scenarios: per-file decisions, content addressing,
//! idempotence, and removal semantics.

use lupdate_core::cache::{Begin, Resolve, ScanMode, Session, Visit};
use lupdate_core::hashes::md5_bytes;
use lupdate_core::manifest::{VersionInfo, serialize_manifest};
use lupdate_core::matcher::Matcher;
use lupdate_core::meta::{FileMeta, MetaPair};
use lupdate_core::pathmap::PathMap;
use lupdate_core::quickcheck::{QcMap, QcRecord, build_index};

fn b(s: &str) -> Vec<u8> {
    s.as_bytes().to_vec()
}

fn match_all() -> Matcher {
    Matcher::new(&Vec::new(), &Vec::new()).unwrap()
}

fn version(n: u32) -> VersionInfo {
    VersionInfo { number: n, hash: md5_bytes(n.to_string().as_bytes()), name: b("v") }
}

fn meta(data: &[u8]) -> FileMeta {
    FileMeta { size: data.len() as u32, hash: md5_bytes(data) }
}

/// Drive one file through the session, simulating what the disk answers:
/// the file's digest and, on a store miss, the compressor's output.
fn drive(
    s: &mut Session,
    path: &[u8],
    mtime: Option<u64>,
    content: &[u8],
    store_hit: Option<FileMeta>,
    compressed: FileMeta,
) -> Option<Vec<u8>> {
    let m = match s.begin_file(path, mtime) {
        Begin::Ignored => return None,
        Begin::Trusted(m) => m,
        Begin::NeedDigest => meta(content),
    };
    match s.resolve_meta(path, mtime, &m) {
        Resolve::Done => None,
        Resolve::NeedStore(outpath) => {
            match store_hit {
                Some(cm) => {
                    let pair = MetaPair { raw: m.clone(), compressed: cm };
                    s.commit_pair(path, mtime, &m, &pair, false);
                },
                None => {
                    let pair = MetaPair { raw: m.clone(), compressed };
                    s.commit_pair(path, mtime, &m, &pair, true);
                },
            }
            Some(outpath)
        },
    }
}

#[test]
fn scenario_first_run_dedups_identical_content() {
    // two files, both holding "hello": exactly one compressed artifact
    let mut s = Session::new(match_all(), QcMap::new(), PathMap::new(), b("cache/p"));
    let zip = meta(b"zipped");
    let out_a = drive(&mut s, b"a.txt", Some(100), b"hello", None, zip.clone()).unwrap();
    // the second path resolves to the same store location ...
    let out_b = drive(&mut s, b"b.txt", Some(100), b"hello", Some(zip.clone()), zip.clone())
        .unwrap();
    assert_eq!(out_a, out_b);
    let (manifest, qc, stats) = s.finish(ScanMode::TreeWalk, version(1));
    // ... and the run compressed once for two processed files
    assert_eq!(stats.total, 2);
    assert_eq!(stats.compress, 1);
    assert_eq!(stats.ignored, 0);
    assert_eq!(manifest.files.entries.len(), 2);
    assert_eq!(manifest.files.entries[0].path, b("a.txt"));
    assert_eq!(manifest.files.entries[1].path, b("b.txt"));
    assert_eq!(
        manifest.files.entries[0].entry.compressed.hash.bytes,
        manifest.files.entries[1].entry.compressed.hash.bytes
    );
    assert_eq!(qc.len(), 2);
}

#[test]
fn scenario_store_path_is_content_addressed() {
    let mut s = Session::new(match_all(), QcMap::new(), PathMap::new(), b("cache/p"));
    let m = meta(b"hello");
    let out = match s.begin_file(b"x.txt", Some(1)) {
        Begin::NeedDigest => match s.resolve_meta(b"x.txt", Some(1), &m) {
            Resolve::NeedStore(o) => o,
            _ => panic!("expected a store lookup"),
        },
        _ => panic!("expected a digest"),
    };
    // md5("hello") = 5d41402abc4b2a76b9719d911017c592
    assert_eq!(out, b("cache/p/5/d/5d41402abc4b2a76b9719d911017c592.sd0"));
}

#[test]
fn scenario_touched_file_redigested_then_reused() {
    // first run records a.txt; rerun after touching only the mtime
    let mut s1 = Session::new(match_all(), QcMap::new(), PathMap::new(), b("out"));
    let zip = meta(b"z");
    drive(&mut s1, b"a.txt", Some(100), b"hello", None, zip.clone());
    let (m1, qc1, _) = s1.finish(ScanMode::TreeWalk, version(1));

    let mut s2 = Session::new(match_all(), build_index(qc1), m1.files, b("out"));
    // the modification time changed: the quickcheck entry cannot vouch
    match s2.begin_file(b"a.txt", Some(999)) {
        Begin::NeedDigest => {},
        _ => panic!("a changed mtime must force a digest"),
    }
    // the fresh digest equals the prior raw metadata: reuse, no store access
    match s2.resolve_meta(b"a.txt", Some(999), &meta(b"hello")) {
        Resolve::Done => {},
        _ => panic!("an unchanged digest must reuse the prior entry"),
    }
    let (_, _, stats) = s2.finish(ScanMode::TreeWalk, version(2));
    assert_eq!(stats.compress, 0);
    assert_eq!(stats.updated, 0);
    assert_eq!(stats.quickcheck, 0);
    assert_eq!(stats.total, 1);
}

#[test]
fn scenario_unchanged_mtime_skips_digest() {
    let mut s1 = Session::new(match_all(), QcMap::new(), PathMap::new(), b("out"));
    let zip = meta(b"z");
    drive(&mut s1, b"a.txt", Some(100), b"hello", None, zip.clone());
    let (m1, qc1, _) = s1.finish(ScanMode::TreeWalk, version(1));

    let mut s2 = Session::new(match_all(), build_index(qc1), m1.files, b("out"));
    match s2.begin_file(b"a.txt", Some(100)) {
        Begin::Trusted(m) => assert_eq!(m.hash.bytes, md5_bytes(b"hello").bytes),
        _ => panic!("an unchanged mtime must skip the digest"),
    }
}

#[test]
fn scenario_rerun_unchanged_is_idempotent() {
    // first run over two files
    let mut s1 = Session::new(match_all(), QcMap::new(), PathMap::new(), b("out"));
    drive(&mut s1, b"a.txt", Some(10), b"alpha", None, meta(b"za"));
    drive(&mut s1, b"b.txt", Some(20), b"beta", None, meta(b"zb"));
    let (m1, qc1, stats1) = s1.finish(ScanMode::TreeWalk, version(7));
    assert_eq!(stats1.compress, 2);
    let text1 = serialize_manifest(&m1);

    // second run, nothing changed on disk: same files, same mtimes
    let mut s2 = Session::new(match_all(), build_index(qc1), m1.files, b("out"));
    for (path, mtime) in [(b("a.txt"), 10u64), (b("b.txt"), 20u64)] {
        let m = match s2.begin_file(path.as_slice(), Some(mtime)) {
            Begin::Trusted(m) => m,
            _ => panic!("an unchanged file must hit the quickcheck index"),
        };
        match s2.resolve_meta(path.as_slice(), Some(mtime), &m) {
            Resolve::Done => {},
            _ => panic!("an unchanged file must reuse its prior entry"),
        }
    }
    let (m2, qc2, stats2) = s2.finish(ScanMode::TreeWalk, version(7));
    // identical manifest, zero compressions, zero fresh digests
    assert_eq!(serialize_manifest(&m2), text1);
    assert_eq!(stats2.compress, 0);
    assert_eq!(stats2.updated, 0);
    assert_eq!(stats2.quickcheck, 2);
    assert_eq!(qc2.len(), 2);
}

#[test]
fn scenario_tree_walk_drops_missing_path() {
    let mut s1 = Session::new(match_all(), QcMap::new(), PathMap::new(), b("out"));
    drive(&mut s1, b"gone.txt", Some(5), b"old", None, meta(b"zo"));
    drive(&mut s1, b"kept.txt", Some(6), b"new", None, meta(b"zn"));
    let (m1, qc1, _) = s1.finish(ScanMode::TreeWalk, version(1));

    // the next tree walk only sees kept.txt
    let mut s2 = Session::new(match_all(), build_index(qc1), m1.files, b("out"));
    let m = match s2.begin_file(b"kept.txt", Some(6)) {
        Begin::Trusted(m) => m,
        _ => panic!("kept.txt is unchanged"),
    };
    s2.resolve_meta(b"kept.txt", Some(6), &m);
    let (m2, _, _) = s2.finish(ScanMode::TreeWalk, version(2));
    assert_eq!(m2.files.entries.len(), 1);
    assert_eq!(m2.files.entries[0].path, b("kept.txt"));
}

#[test]
fn scenario_list_run_carries_unmentioned_path_forward() {
    let mut s1 = Session::new(match_all(), QcMap::new(), PathMap::new(), b("out"));
    drive(&mut s1, b"listed.txt", Some(5), b"one", None, meta(b"zo"));
    drive(&mut s1, b"other.txt", Some(6), b"two", None, meta(b"zn"));
    let (m1, qc1, _) = s1.finish(ScanMode::TreeWalk, version(1));
    let other_entry = m1.files.entries[1].entry.checksum.bytes.clone();
    assert_eq!(m1.files.entries[1].path, b("other.txt"));

    // a list names only listed.txt; other.txt must survive unchanged
    let mut s2 = Session::new(match_all(), build_index(qc1), m1.files, b("out"));
    let m = match s2.begin_file(b"listed.txt", Some(5)) {
        Begin::Trusted(m) => m,
        _ => panic!("listed.txt is unchanged"),
    };
    s2.resolve_meta(b"listed.txt", Some(5), &m);
    let (m2, qc2, _) = s2.finish(ScanMode::FileList, version(2));
    assert_eq!(m2.files.entries.len(), 2);
    assert_eq!(m2.files.entries[1].path, b("other.txt"));
    assert_eq!(m2.files.entries[1].entry.checksum.bytes, other_entry);
    // the untouched quickcheck record is written back out too
    assert_eq!(qc2.len(), 2);
}

#[test]
fn scenario_listed_missing_file_is_purged() {
    let mut s1 = Session::new(match_all(), QcMap::new(), PathMap::new(), b("out"));
    drive(&mut s1, b"dead.txt", Some(5), b"one", None, meta(b"zo"));
    let (m1, qc1, _) = s1.finish(ScanMode::TreeWalk, version(1));

    let mut s2 = Session::new(match_all(), build_index(qc1), m1.files, b("out"));
    // the list names dead.txt but the file no longer exists
    s2.remove_missing(b"dead.txt");
    let (m2, qc2, _) = s2.finish(ScanMode::FileList, version(2));
    assert_eq!(m2.files.entries.len(), 0);
    assert_eq!(qc2.len(), 0);
}

#[test]
fn scenario_filtered_file_is_ignored() {
    let matcher = Matcher::new(&Vec::new(), &vec![String::from("*.pk")]).unwrap();
    let mut s = Session::new(matcher, QcMap::new(), PathMap::new(), b("out"));
    match s.begin_file(b"big.pk", Some(1)) {
        Begin::Ignored => {},
        _ => panic!("excluded files must be ignored"),
    }
    let m = match s.begin_file(b"a.txt", Some(1)) {
        Begin::NeedDigest => meta(b"x"),
        _ => panic!("a.txt passes the filter"),
    };
    s.resolve_meta(b"a.txt", Some(1), &m);
    let (_, _, stats) = s.finish(ScanMode::TreeWalk, version(1));
    assert_eq!(stats.ignored, 1);
    assert_eq!(stats.total, 1);
}

#[test]
fn scenario_changed_content_counts_updated() {
    let mut s1 = Session::new(match_all(), QcMap::new(), PathMap::new(), b("out"));
    drive(&mut s1, b"a.txt", Some(10), b"old content", None, meta(b"z1"));
    let (m1, _, _) = s1.finish(ScanMode::TreeWalk, version(1));

    // content changed: digest differs from the prior manifest
    let mut s2 = Session::new(match_all(), QcMap::new(), m1.files, b("out"));
    let m = match s2.begin_file(b"a.txt", Some(11)) {
        Begin::NeedDigest => meta(b"new content"),
        _ => panic!("no quickcheck entry exists"),
    };
    match s2.resolve_meta(b"a.txt", Some(11), &m) {
        Resolve::NeedStore(_) => {},
        _ => panic!("changed content cannot be reused"),
    }
    let pair = MetaPair { raw: m.clone(), compressed: meta(b"z2") };
    s2.commit_pair(b"a.txt", Some(11), &m, &pair, true);
    let (_, _, stats) = s2.finish(ScanMode::TreeWalk, version(2));
    assert_eq!(stats.updated, 1);
    assert_eq!(stats.compress, 1);
}

#[test]
fn visit_drops_unreadable_file() {
    // the path does not exist on disk: the digest fails and the file is
    // dropped from the run without an entry
    let mut s = Session::new(match_all(), QcMap::new(), PathMap::new(), b("out"));
    let r = s.visit_file(b"a.txt", Some(1), b"no-such-dir-xkcd/no-such-file-a8d1");
    assert!(matches!(r, Visit::Done));
    let (m, qc, stats) = s.finish(ScanMode::TreeWalk, version(1));
    assert_eq!(m.files.entries.len(), 0);
    assert_eq!(qc.len(), 0);
    assert_eq!(stats.total, 1);
    assert_eq!(stats.compress, 0);
}

#[test]
fn scenario_entry_checksum_covers_line_body() {
    // the recorded checksum is the digest of the persisted line body:
    // path, raw metadata, compressed metadata
    let mut s = Session::new(match_all(), QcMap::new(), PathMap::new(), b("out"));
    let m = match s.begin_file(b"a.txt", Some(1)) {
        Begin::NeedDigest => meta(b"hello"),
        _ => panic!("fresh file"),
    };
    s.resolve_meta(b"a.txt", Some(1), &m);
    let pair = MetaPair { raw: m.clone(), compressed: meta(b"zip") };
    s.commit_pair(b"a.txt", Some(1), &m, &pair, true);
    let (manifest, _, _) = s.finish(ScanMode::TreeWalk, version(1));
    let mut body: Vec<u8> = Vec::new();
    lupdate_core::manifest::push_entry_body(&mut body, b"a.txt", &pair.raw, &pair.compressed);
    assert_eq!(
        manifest.files.entries[0].entry.checksum.bytes,
        md5_bytes(&body).bytes
    );
}
