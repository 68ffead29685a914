//! The cache engine: per-file decision logic of a cache run.
//!
//! A session owns the loaded quickcheck index, the prior manifest, and the
//! manifest being built. Each candidate file goes through: path filter,
//! quickcheck (skip digesting when the modification time is unchanged),
//! prior-manifest comparison (reuse the entry verbatim when the raw
//! metadata is unchanged), and the content-addressed store (reuse an
//! artifact compressed earlier — possibly under another path — or ask for a
//! fresh compression). Work that touches the disk — digesting, probing the
//! store, compressing — enters through trusted bindings or is handed back
//! to the caller as an explicit request, so every decision in between is
//! verified against the session model.

use vstd::prelude::*;

use crate::codec::hex_of;
use crate::hashes::{crc_of, md5_of, digest_file, md5_bytes, Probe};
use crate::manifest::{Manifest, VersionInfo, path_ok, entries_ok, entry_body_text,
    push_entry_body};
use crate::matcher::{Matcher, glob_patterns, glob_match};
use crate::meta::{Digest, FileMeta, MetaV, MetaPair, PairV, FileEntry, EntryV, meta_eq};
use crate::pathmap::{PathMap, PathEntryV};
use crate::quickcheck::{QcRecord, QcRecordV, QcMap, qc_views};

verus! {

/// Command-line arguments of the cache subcommand.
pub struct Args {
    /// Version number of the manifest being built.
    pub version: u32,
    /// Version label; the decimal version number when absent.
    pub name: Option<Vec<u8>>,
    /// Keep archive files in the scan instead of ignoring them.
    pub with_pk: bool,
    /// Treat listed paths as already relative to the project directory.
    pub relative: bool,
    /// Path of a file holding one candidate path per line.
    pub files: Option<Vec<u8>>,
}

/// Counters of one cache run.
#[derive(Clone, Copy, PartialEq, Eq, Structural, Debug)]
pub struct Stats {
    /// Files whose digest was taken from the quickcheck index.
    pub quickcheck: u64,
    /// Files freshly compressed into the store.
    pub compress: u64,
    /// Files whose content changed since the prior manifest.
    pub updated: u64,
    /// Files that passed the path filter.
    pub total: u64,
    /// Files rejected by the path filter.
    pub ignored: u64,
}

impl Stats {
    /// All counters zero.
    pub fn new() -> (r: Stats)
        ensures
            r == (Stats { quickcheck: 0, compress: 0, updated: 0, total: 0, ignored: 0 }),
    {
        Stats { quickcheck: 0, compress: 0, updated: 0, total: 0, ignored: 0 }
    }
}

/// A counter bumped by one, stopping at its ceiling.
pub open spec fn bump(c: u64) -> u64 {
    if c == u64::MAX {
        c
    } else {
        (c + 1) as u64
    }
}

fn bump_counter(c: u64) -> (r: u64)
    ensures
        r == bump(c),
{
    if c == u64::MAX {
        c
    } else {
        c + 1
    }
}

/// Mathematical value of a [`Session`].
#[verifier::ext_equal]
pub ghost struct SessionV {
    /// Patterns of the select set; an empty select list admits all.
    pub select: Seq<Seq<char>>,
    pub select_all: bool,
    /// Patterns of the exclude set.
    pub exclude: Seq<Seq<char>>,
    /// The loaded quickcheck index, consumed as paths are visited.
    pub qc: Map<u32, QcRecordV>,
    /// The prior manifest's entries, consumed as paths are visited.
    pub prev: Map<Seq<u8>, EntryV>,
    /// The manifest being built.
    pub files: Map<Seq<u8>, EntryV>,
    /// Quickcheck records of the files processed this run, in order.
    pub qc_out: Seq<QcRecordV>,
    pub stats: Stats,
    /// The content-addressed store directory.
    pub output: Seq<u8>,
}

/// Whether a path participates in the scan.
pub open spec fn model_accepts(s: SessionV, p: Seq<u8>) -> bool {
    (s.select_all || glob_match(s.select, p)) && !glob_match(s.exclude, p)
}

/// First stage of a visit: filter, then consult the quickcheck index.
pub ghost enum BeginV {
    /// Rejected by the path filter.
    Ignored,
    /// The stored metadata is trusted; digesting is skipped.
    Trusted(MetaV),
    /// The file must be digested.
    NeedDigest,
}

/// Result of [`Session::begin_file`].
pub enum Begin {
    Ignored,
    Trusted(FileMeta),
    NeedDigest,
}

impl View for Begin {
    type V = BeginV;

    open spec fn view(&self) -> BeginV {
        match self {
            Begin::Ignored => BeginV::Ignored,
            Begin::Trusted(m) => BeginV::Trusted(m@),
            Begin::NeedDigest => BeginV::NeedDigest,
        }
    }
}

/// The first stage: reject via the filter or look the fingerprint up in the
/// quickcheck index, which is consumed either way. The stored metadata is
/// trusted exactly when both modification times are known and equal.
pub open spec fn model_begin(s: SessionV, p: Seq<u8>, mtime: Option<u64>) -> (SessionV, BeginV) {
    if !model_accepts(s, p) {
        (SessionV { stats: Stats { ignored: bump(s.stats.ignored), ..s.stats }, ..s }, BeginV::Ignored)
    } else {
        let c = crc_of(p);
        let s1 = SessionV {
            stats: Stats { total: bump(s.stats.total), ..s.stats },
            qc: s.qc.remove(c),
            ..s
        };
        if s.qc.dom().contains(c) && mtime is Some && s.qc[c].mtime == mtime {
            (
                SessionV { stats: Stats { quickcheck: bump(s1.stats.quickcheck), ..s1.stats }, ..s1 },
                BeginV::Trusted(s.qc[c].meta),
            )
        } else {
            (s1, BeginV::NeedDigest)
        }
    }
}

/// Second stage of a visit.
pub ghost enum ResolveV {
    /// The prior entry was reused verbatim; the file is recorded.
    Done,
    /// The store must be consulted at the given location.
    NeedStore(Seq<u8>),
}

/// Result of [`Session::resolve_meta`].
pub enum Resolve {
    Done,
    NeedStore(Vec<u8>),
}

impl View for Resolve {
    type V = ResolveV;

    open spec fn view(&self) -> ResolveV {
        match self {
            Resolve::Done => ResolveV::Done,
            Resolve::NeedStore(v) => ResolveV::NeedStore(v@),
        }
    }
}

/// The store-relative location of an artifact: `c1/c2/hex.sd0`, a pure
/// function of the content digest.
pub open spec fn rel_path_of(hash: Seq<u8>) -> Seq<u8> {
    let h = hex_of(hash);
    seq![h[0], 47u8, h[1], 47u8] + h + seq![46u8, 115u8, 100u8, 48u8]
}

/// The full store location: the store directory, a separator, and the
/// digest-derived relative path.
pub open spec fn store_path_of(output: Seq<u8>, hash: Seq<u8>) -> Seq<u8> {
    output + seq![47u8] + rel_path_of(hash)
}

/// A quickcheck record for a processed file.
pub open spec fn qc_record_of(p: Seq<u8>, mtime: Option<u64>, meta: MetaV) -> QcRecordV {
    QcRecordV { path: p, mtime, meta }
}

/// The second stage: consume the path from the prior manifest; when its raw
/// metadata equals the resolved metadata, reuse the entire prior entry
/// (recording the file), else hand back the store location to consult.
pub open spec fn model_resolve(s: SessionV, p: Seq<u8>, mtime: Option<u64>, m: MetaV) -> (
    SessionV,
    ResolveV,
) {
    let had = s.prev.dom().contains(p);
    let s1 = SessionV { prev: s.prev.remove(p), ..s };
    if had && s.prev[p].raw == m {
        (
            SessionV {
                files: s1.files.insert(p, s.prev[p]),
                qc_out: s1.qc_out.push(qc_record_of(p, mtime, m)),
                ..s1
            },
            ResolveV::Done,
        )
    } else {
        let s2 = if had {
            SessionV { stats: Stats { updated: bump(s1.stats.updated), ..s1.stats }, ..s1 }
        } else {
            s1
        };
        (s2, ResolveV::NeedStore(store_path_of(s.output, m.hash)))
    }
}

/// The last stage: record a new entry built from the resolved raw metadata
/// and the store's compressed metadata, checksummed over the line text, and
/// count a fresh compression when one happened.
pub open spec fn model_commit(
    s: SessionV,
    p: Seq<u8>,
    mtime: Option<u64>,
    m: MetaV,
    pair: PairV,
    fresh: bool,
) -> SessionV {
    let entry = EntryV {
        raw: pair.raw,
        compressed: pair.compressed,
        checksum: md5_of(entry_body_text(p, pair)),
    };
    SessionV {
        files: s.files.insert(p, entry),
        qc_out: s.qc_out.push(qc_record_of(p, mtime, m)),
        stats: if fresh {
            Stats { compress: bump(s.stats.compress), ..s.stats }
        } else {
            s.stats
        },
        ..s
    }
}

/// A listed path that no longer exists: purge it from both the quickcheck
/// index and the prior manifest.
pub open spec fn model_remove_missing(s: SessionV, p: Seq<u8>) -> SessionV {
    SessionV { qc: s.qc.remove(crc_of(p)), prev: s.prev.remove(p), ..s }
}

/// What the disk answered, at the model level.
pub ghost enum ProbeV {
    Found(MetaV),
    Missing,
    Failed,
}

impl View for Probe {
    type V = ProbeV;

    open spec fn view(&self) -> ProbeV {
        match self {
            Probe::Found(m) => ProbeV::Found(m@),
            Probe::Missing => ProbeV::Missing,
            Probe::Failed => ProbeV::Failed,
        }
    }
}

/// Result of [`Session::visit_file`].
pub enum Visit {
    /// The file was recorded, dropped, or ignored; nothing left to do.
    Done,
    /// The store misses this content: compress the source file to `outpath`
    /// and hand the result to [`Session::commit_pair`].
    NeedCompress { outpath: Vec<u8>, in_meta: FileMeta },
}

/// Mathematical value of a [`Visit`].
pub ghost enum VisitV {
    Done,
    NeedCompress(Seq<u8>, MetaV),
}

impl View for Visit {
    type V = VisitV;

    open spec fn view(&self) -> VisitV {
        match self {
            Visit::Done => VisitV::Done,
            Visit::NeedCompress { outpath, in_meta } => VisitV::NeedCompress(outpath@, in_meta@),
        }
    }
}

/// A visit after the raw metadata is known: reuse the prior entry, or
/// consult the store — reuse an artifact found there, ask for compression
/// when it is missing, drop the file when the store cannot be read.
pub open spec fn model_visit_meta(
    s: SessionV,
    p: Seq<u8>,
    mtime: Option<u64>,
    m: MetaV,
    probe: ProbeV,
) -> (SessionV, VisitV) {
    let (s2, rv) = model_resolve(s, p, mtime, m);
    match rv {
        ResolveV::Done => (s2, VisitV::Done),
        ResolveV::NeedStore(outpath) => match probe {
            ProbeV::Found(cm) => (
                model_commit(s2, p, mtime, m, PairV { raw: m, compressed: cm }, false),
                VisitV::Done,
            ),
            ProbeV::Missing => (s2, VisitV::NeedCompress(outpath, m)),
            ProbeV::Failed => (s2, VisitV::Done),
        },
    }
}

/// One whole visit, with the disk's answers as parameters: `dg` is what
/// digesting the source file answered, `probe` what probing the store
/// answered. A digest failure drops the file: no record, no refresh.
pub open spec fn model_visit(
    s: SessionV,
    p: Seq<u8>,
    mtime: Option<u64>,
    dg: ProbeV,
    probe: ProbeV,
) -> (SessionV, VisitV) {
    let (s1, b) = model_begin(s, p, mtime);
    match b {
        BeginV::Ignored => (s1, VisitV::Done),
        BeginV::Trusted(m) => model_visit_meta(s1, p, mtime, m, probe),
        BeginV::NeedDigest => match dg {
            ProbeV::Found(m) => model_visit_meta(s1, p, mtime, m, probe),
            ProbeV::Missing => (s1, VisitV::Done),
            ProbeV::Failed => (s1, VisitV::Done),
        },
    }
}

/// Paths in the file table stay persistable across an insertion.
proof fn lemma_entries_ok_after_insert(newf: PathMap, oldf: PathMap, p: Seq<u8>, e: EntryV)
    requires
        newf.wf(),
        oldf.wf(),
        entries_ok(oldf@),
        path_ok(p),
        newf.as_map() == oldf.as_map().insert(p, e),
    ensures
        entries_ok(newf@),
{
    assert forall|i: int| 0 <= i < newf@.len() implies path_ok(
        (#[trigger] newf@[i]).path,
    ) by {
        let q = newf@[i].path;
        assert(newf.contains_key(q));
        assert(newf.as_map().dom().contains(q));
        if q != p {
            assert(oldf.as_map().dom().contains(q));
            assert(oldf.contains_key(q));
            let t = choose|t: int| 0 <= t < oldf@.len() && oldf@[t].path == q;
            assert(path_ok(oldf@[t].path));
        }
    }
}

/// The relative store path of a digest: the first two hex digits name two
/// directory levels, then the full hex name with the compressed extension.
pub fn hash_to_path(hash: &Digest) -> (r: Vec<u8>)
    requires
        hash.wf(),
    ensures
        r@ == rel_path_of(hash@),
{
    let mut h: Vec<u8> = Vec::new();
    crate::codec::push_hex(&mut h, hash.bytes.as_slice());
    let mut r: Vec<u8> = Vec::new();
    r.push(h[0]);
    r.push(47);
    r.push(h[1]);
    r.push(47);
    r.extend_from_slice(h.as_slice());
    r.push(46);
    r.push(115);
    r.push(100);
    r.push(48);
    proof {
        assert(r@ =~= rel_path_of(hash@));
    }
    r
}

/// One cache run's in-memory state.
pub struct Session {
    pub matcher: Matcher,
    pub quickcheck: QcMap,
    pub prev: PathMap,
    pub files: PathMap,
    pub qc_out: Vec<QcRecord>,
    pub stats: Stats,
    pub output: Vec<u8>,
}

impl View for Session {
    type V = SessionV;

    open spec fn view(&self) -> SessionV {
        SessionV {
            select: glob_patterns(self.matcher.select),
            select_all: self.matcher.select_all,
            exclude: glob_patterns(self.matcher.exclude),
            qc: self.quickcheck.as_map(),
            prev: self.prev.as_map(),
            files: self.files.as_map(),
            qc_out: qc_views(self.qc_out@),
            stats: self.stats,
            output: self.output@,
        }
    }
}

impl Session {
    /// The session's structures are well-formed: both path maps sorted with
    /// persistable paths, quickcheck records well-formed.
    pub open spec fn wf(&self) -> bool {
        &&& self.quickcheck.wf()
        &&& self.prev.wf()
        &&& self.files.wf()
        &&& entries_ok(self.prev@)
        &&& entries_ok(self.files@)
        &&& forall|i: int| 0 <= i < self.qc_out@.len() ==> (#[trigger] self.qc_out@[i]).wf()
    }

    /// Open a session over loaded state.
    pub fn new(matcher: Matcher, quickcheck: QcMap, prev: PathMap, output: Vec<u8>) -> (r: Session)
        requires
            quickcheck.wf(),
            prev.wf(),
            entries_ok(prev@),
        ensures
            r.wf(),
            r@ == (SessionV {
                select: glob_patterns(matcher.select),
                select_all: matcher.select_all,
                exclude: glob_patterns(matcher.exclude),
                qc: quickcheck.as_map(),
                prev: prev.as_map(),
                files: Map::<Seq<u8>, EntryV>::empty(),
                qc_out: Seq::<QcRecordV>::empty(),
                stats: Stats { quickcheck: 0, compress: 0, updated: 0, total: 0, ignored: 0 },
                output: output@,
            }),
    {
        let r = Session {
            matcher,
            quickcheck,
            prev,
            files: PathMap::new(),
            qc_out: Vec::new(),
            stats: Stats::new(),
            output,
        };
        proof {
            assert(r.files.as_map() =~= Map::<Seq<u8>, EntryV>::empty());
            assert(qc_views(r.qc_out@) =~= Seq::<QcRecordV>::empty());
            assert(r@ =~~= SessionV {
                select: glob_patterns(r.matcher.select),
                select_all: r.matcher.select_all,
                exclude: glob_patterns(r.matcher.exclude),
                qc: r.quickcheck.as_map(),
                prev: r.prev.as_map(),
                files: Map::<Seq<u8>, EntryV>::empty(),
                qc_out: Seq::<QcRecordV>::empty(),
                stats: Stats { quickcheck: 0, compress: 0, updated: 0, total: 0, ignored: 0 },
                output: r.output@,
            });
        }
        r
    }

    /// Filter the path and consult the quickcheck index.
    ///
    /// Digesting is skipped exactly when the index holds the fingerprint
    /// with a known modification time equal to the observed one.
    pub fn begin_file(&mut self, path: &[u8], mtime: Option<u64>) -> (r: Begin)
        requires
            old(self).wf(),
        ensures
            final(self).wf(),
            final(self)@ == model_begin(old(self)@, path@, mtime).0,
            r@ == model_begin(old(self)@, path@, mtime).1,
            r matches Begin::Trusted(m) ==> m.wf(),
    {
        let ghost pre = self@;
        if !self.matcher.accepts(path) {
            self.stats.ignored = bump_counter(self.stats.ignored);
            proof {
                assert(self@ =~~= model_begin(pre, path@, mtime).0);
            }
            return Begin::Ignored;
        }
        self.stats.total = bump_counter(self.stats.total);
        let c = assembly_pack::crc::calculate_crc(path);
        match self.quickcheck.remove(c) {
            Some(rec) => {
                let hit = match (rec.mtime, mtime) {
                    (Some(a), Some(b)) => a == b,
                    _ => false,
                };
                if hit {
                    self.stats.quickcheck = bump_counter(self.stats.quickcheck);
                    proof {
                        assert(self@ =~~= model_begin(pre, path@, mtime).0);
                    }
                    Begin::Trusted(rec.meta)
                } else {
                    proof {
                        assert(self@ =~~= model_begin(pre, path@, mtime).0);
                    }
                    Begin::NeedDigest
                }
            },
            None => {
                proof {
                    assert(self@ =~~= model_begin(pre, path@, mtime).0);
                }
                Begin::NeedDigest
            },
        }
    }

    /// Consume the path from the prior manifest and either reuse its entry
    /// verbatim or name the store location to consult.
    pub fn resolve_meta(&mut self, path: &[u8], mtime: Option<u64>, m: &FileMeta) -> (r: Resolve)
        requires
            old(self).wf(),
            path_ok(path@),
            m.wf(),
        ensures
            final(self).wf(),
            final(self)@ == model_resolve(old(self)@, path@, mtime, m@).0,
            r@ == model_resolve(old(self)@, path@, mtime, m@).1,
    {
        let ghost pre = self@;
        let prior = self.prev.remove(path);
        match prior {
            Some(entry) => {
                if meta_eq(&entry.raw, m) {
                    let ghost ev = entry@;
                    self.files.insert(vstd::slice::slice_to_vec(path), entry);
                    self.qc_out.push(
                        QcRecord {
                            path: vstd::slice::slice_to_vec(path),
                            mtime,
                            meta: m.clone(),
                        },
                    );
                    proof {
                        assert(qc_views(self.qc_out@) =~= pre.qc_out.push(
                            qc_record_of(path@, mtime, m@),
                        ));
                        assert(self@ =~~= model_resolve(pre, path@, mtime, m@).0);
                        lemma_entries_ok_after_insert(self.files, old(self).files, path@, ev);
                    }
                    Resolve::Done
                } else {
                    self.stats.updated = bump_counter(self.stats.updated);
                    let out = self.store_path(&m.hash);
                    proof {
                        assert(self@ =~~= model_resolve(pre, path@, mtime, m@).0);
                    }
                    Resolve::NeedStore(out)
                }
            },
            None => {
                let out = self.store_path(&m.hash);
                proof {
                    assert(self@ =~~= model_resolve(pre, path@, mtime, m@).0);
                }
                Resolve::NeedStore(out)
            },
        }
    }

    /// The store location for content with the given digest.
    pub fn store_path(&self, hash: &Digest) -> (r: Vec<u8>)
        requires
            hash.wf(),
        ensures
            r@ == store_path_of(self.output@, hash@),
    {
        let mut r = vstd::slice::slice_to_vec(self.output.as_slice());
        r.push(47);
        let rel = hash_to_path(hash);
        r.extend_from_slice(rel.as_slice());
        proof {
            assert(r@ =~= store_path_of(self.output@, hash@));
        }
        r
    }

    /// Record a freshly resolved entry: raw and compressed metadata, and a
    /// line checksum over the persisted text.
    pub fn commit_pair(
        &mut self,
        path: &[u8],
        mtime: Option<u64>,
        m: &FileMeta,
        pair: &MetaPair,
        fresh: bool,
    )
        requires
            old(self).wf(),
            path_ok(path@),
            m.wf(),
            pair.wf(),
        ensures
            final(self).wf(),
            final(self)@ == model_commit(old(self)@, path@, mtime, m@, pair@, fresh),
    {
        let ghost pre = self@;
        let mut body: Vec<u8> = Vec::new();
        push_entry_body(&mut body, path, &pair.raw, &pair.compressed);
        let checksum = md5_bytes(body.as_slice());
        let entry = FileEntry {
            raw: pair.raw.clone(),
            compressed: pair.compressed.clone(),
            checksum,
        };
        self.files.insert(vstd::slice::slice_to_vec(path), entry);
        self.qc_out.push(
            QcRecord { path: vstd::slice::slice_to_vec(path), mtime, meta: m.clone() },
        );
        if fresh {
            self.stats.compress = bump_counter(self.stats.compress);
        }
        proof {
            assert(qc_views(self.qc_out@) =~= pre.qc_out.push(qc_record_of(path@, mtime, m@)));
            assert(self@ =~~= model_commit(pre, path@, mtime, m@, pair@, fresh));
            lemma_entries_ok_after_insert(self.files, old(self).files, path@, entry@);
        }
    }

    /// Purge a listed path that no longer exists from both the quickcheck
    /// index and the prior manifest: an explicit removal signal.
    pub fn remove_missing(&mut self, path: &[u8])
        requires
            old(self).wf(),
        ensures
            final(self).wf(),
            final(self)@ == model_remove_missing(old(self)@, path@),
    {
        let ghost pre = self@;
        let c = assembly_pack::crc::calculate_crc(path);
        let _ = self.quickcheck.remove(c);
        let _ = self.prev.remove(path);
        proof {
            assert(self@ =~~= model_remove_missing(pre, path@));
        }
    }

    /// One whole visit of a candidate file.
    ///
    /// `fs_path` is the filesystem location of the file; it is digested when
    /// the quickcheck index cannot vouch for it, and the store is probed
    /// for the resulting content. The caller compresses on a store miss and
    /// hands the outcome to [`Session::commit_pair`]. The result and the
    /// new state follow the session model for whatever the disk answered.
    pub fn visit_file(&mut self, path: &[u8], mtime: Option<u64>, fs_path: &[u8]) -> (r: Visit)
        requires
            old(self).wf(),
            path_ok(path@),
        ensures
            final(self).wf(),
            exists|dg: ProbeV, probe: ProbeV|
                {
                    let (s2, v) = #[trigger] model_visit(old(self)@, path@, mtime, dg, probe);
                    final(self)@ == s2 && r@ == v
                },
            r matches Visit::NeedCompress { outpath, in_meta } ==> in_meta.wf(),
    {
        let ghost pre = self@;
        let m: FileMeta = match self.begin_file(path, mtime) {
            Begin::Ignored => {
                proof {
                    let (s2, v) = model_visit(pre, path@, mtime, ProbeV::Failed, ProbeV::Failed);
                    assert(self@ == s2 && Visit::Done@ == v);
                }
                return Visit::Done;
            },
            Begin::Trusted(m) => m,
            Begin::NeedDigest => {
                match digest_file(fs_path) {
                    Probe::Found(m) => m,
                    Probe::Missing => {
                        proof {
                            let (s2, v) = model_visit(
                                pre,
                                path@,
                                mtime,
                                ProbeV::Missing,
                                ProbeV::Failed,
                            );
                            assert(self@ == s2 && Visit::Done@ == v);
                        }
                        return Visit::Done;
                    },
                    Probe::Failed => {
                        proof {
                            let (s2, v) = model_visit(
                                pre,
                                path@,
                                mtime,
                                ProbeV::Failed,
                                ProbeV::Failed,
                            );
                            assert(self@ == s2 && Visit::Done@ == v);
                        }
                        return Visit::Done;
                    },
                }
            },
        };
        let ghost dg = ProbeV::Found(m@);
        match self.resolve_meta(path, mtime, &m) {
            Resolve::Done => {
                proof {
                    let (s2, v) = model_visit(pre, path@, mtime, dg, ProbeV::Failed);
                    assert(self@ == s2 && Visit::Done@ == v);
                }
                Visit::Done
            },
            Resolve::NeedStore(outpath) => {
                match digest_file(outpath.as_slice()) {
                    Probe::Found(cm) => {
                        let pair = MetaPair { raw: m.clone(), compressed: cm };
                        self.commit_pair(path, mtime, &m, &pair, false);
                        proof {
                            let (s2, v) = model_visit(
                                pre,
                                path@,
                                mtime,
                                dg,
                                ProbeV::Found(pair.compressed@),
                            );
                            assert(self@ == s2 && Visit::Done@ == v);
                        }
                        Visit::Done
                    },
                    Probe::Missing => {
                        let r = Visit::NeedCompress { outpath, in_meta: m };
                        proof {
                            let (s2, v) = model_visit(pre, path@, mtime, dg, ProbeV::Missing);
                            assert(self@ == s2 && r@ == v);
                        }
                        r
                    },
                    Probe::Failed => {
                        proof {
                            let (s2, v) = model_visit(pre, path@, mtime, dg, ProbeV::Failed);
                            assert(self@ == s2 && Visit::Done@ == v);
                        }
                        Visit::Done
                    },
                }
            },
        }
    }
}


/// How a run was driven: a recursive walk of the project tree, or an
/// explicit list of paths.
pub enum ScanMode {
    TreeWalk,
    FileList,
}

/// The manifest table a finished run persists. A tree walk keeps exactly
/// the files recorded this run — prior entries never revisited are dropped.
/// A list-driven run carries every prior entry not consumed by the list
/// forward unchanged.
pub open spec fn model_finish_files(s: SessionV, mode: ScanMode) -> Map<Seq<u8>, EntryV> {
    match mode {
        ScanMode::TreeWalk => s.files,
        ScanMode::FileList => s.files.union_prefer_right(s.prev),
    }
}

/// Merging a list of entries into a map, one insertion per entry.
pub open spec fn fold_merge(base: Map<Seq<u8>, EntryV>, s: Seq<PathEntryV>) -> Map<Seq<u8>, EntryV>
    decreases s.len(),
{
    if s.len() == 0 {
        base
    } else {
        fold_merge(base, s.drop_last()).insert(s.last().path, s.last().entry)
    }
}

/// With distinct paths, the fold is insertion-order independent: each
/// present path maps to its entry, every other key is unchanged.
proof fn lemma_fold_merge(base: Map<Seq<u8>, EntryV>, s: Seq<PathEntryV>)
    requires
        forall|i: int, j: int|
            0 <= i < j < s.len() ==> (#[trigger] s[i]).path != (#[trigger] s[j]).path,
    ensures
        forall|p: Seq<u8>|
            #[trigger] fold_merge(base, s).dom().contains(p) == (base.dom().contains(p)
                || exists|i: int| 0 <= i < s.len() && (#[trigger] s[i]).path == p),
        forall|i: int|
            0 <= i < s.len() ==> fold_merge(base, s)[(#[trigger] s[i]).path] == s[i].entry,
        forall|p: Seq<u8>|
            base.dom().contains(p) && !(exists|i: int|
                0 <= i < s.len() && (#[trigger] s[i]).path == p) ==> #[trigger] fold_merge(
                base,
                s,
            )[p] == base[p],
    decreases s.len(),
{
    if s.len() > 0 {
        let t = s.drop_last();
        let o = s.last();
        lemma_fold_merge(base, t);
        let fd = fold_merge(base, t);
        assert forall|p: Seq<u8>| #[trigger] fold_merge(base, s).dom().contains(p) == (
        base.dom().contains(p) || exists|i: int|
            0 <= i < s.len() && (#[trigger] s[i]).path == p) by {
            assert(fold_merge(base, s) == fd.insert(o.path, o.entry));
            if p == o.path {
                assert(s[s.len() - 1].path == p);
                assert(fold_merge(base, s).dom().contains(p));
            } else {
                assert(fold_merge(base, s).dom().contains(p) == fd.dom().contains(p));
                assert(fd.dom().contains(p) == (base.dom().contains(p) || exists|i: int|
                    0 <= i < t.len() && (#[trigger] t[i]).path == p));
                if exists|i: int| 0 <= i < t.len() && (#[trigger] t[i]).path == p {
                    let i = choose|i: int| 0 <= i < t.len() && (#[trigger] t[i]).path == p;
                    assert(s[i].path == p);
                }
                if exists|i: int| 0 <= i < s.len() && (#[trigger] s[i]).path == p {
                    let i = choose|i: int| 0 <= i < s.len() && (#[trigger] s[i]).path == p;
                    assert(i < s.len() - 1);
                    assert(t[i].path == p);
                }
            }
        }
        assert forall|i: int| 0 <= i < s.len() implies fold_merge(base, s)[(
        #[trigger] s[i]).path] == s[i].entry by {
            if i < s.len() - 1 {
                assert(t[i] == s[i]);
                assert(s[i].path != s[s.len() - 1].path);
                assert(fold_merge(base, s)[s[i].path] == fd[s[i].path]);
            }
        }
        assert forall|p: Seq<u8>|
            base.dom().contains(p) && !(exists|i: int|
                0 <= i < s.len() && (#[trigger] s[i]).path == p) implies #[trigger] fold_merge(
            base,
            s,
        )[p] == base[p] by {
            assert(s[s.len() - 1].path != p);
            assert(forall|i: int| 0 <= i < t.len() ==> (#[trigger] t[i]).path != p) by {
                assert(forall|i: int| 0 <= i < t.len() ==> t[i] == s[i]);
            }
            assert(fold_merge(base, s)[p] == fd[p]);
        }
    }
}

impl Session {
    /// Close the run: build the manifest to persist, the refreshed
    /// quickcheck records, and the final counters.
    ///
    /// In tree-walk mode the manifest holds exactly the files recorded this
    /// run and the quickcheck records are those of the processed files. In
    /// list-driven mode prior manifest entries never mentioned by the list
    /// are carried forward unchanged, and the unconsumed quickcheck records
    /// are appended, in fingerprint order.
    pub fn finish(self, mode: ScanMode, version: VersionInfo) -> (r: (
        Manifest,
        Vec<QcRecord>,
        Stats,
    ))
        requires
            self.wf(),
            version.wf(),
        ensures
            r.0.wf(),
            r.0.version == version,
            r.0.files.as_map() == model_finish_files(self@, mode),
            r.2 == self.stats,
            mode is TreeWalk ==> qc_views(r.1@) == self@.qc_out,
            mode is FileList ==> qc_views(r.1@) == self@.qc_out + self.quickcheck@.map_values(
                |sl: crate::quickcheck::QcSlotV| sl.rec,
            ),
    {
        let ghost s0 = self@;
        match mode {
            ScanMode::TreeWalk => {
                let m = Manifest { version, files: self.files };
                (m, self.qc_out, self.stats)
            },
            ScanMode::FileList => {
                let mut files = self.files;
                let prev = self.prev;
                let n = prev.entries.len();
                let mut i: usize = 0;
                proof {
                    assert(files.as_map() =~= fold_merge(s0.files, prev@.subrange(0, 0)));
                }
                while i < n
                    invariant
                        0 <= i <= n,
                        n == prev@.len(),
                        prev.wf(),
                        entries_ok(prev@),
                        files.wf(),
                        entries_ok(files@),
                        files.as_map() == fold_merge(s0.files, prev@.subrange(0, i as int)),
                        forall|q: Seq<u8>| s0.files.dom().contains(q) ==> path_ok(q),
                    decreases n - i,
                {
                    let pe = &prev.entries[i];
                    let ghost prefiles = files;
                    proof {
                        assert(prev@[i as int].entry.wf());
                        assert(pe.entry@ == prev@[i as int].entry);
                        assert(pe.path@ == prev@[i as int].path);
                    }
                    files.insert(vstd::slice::slice_to_vec(pe.path.as_slice()), pe.entry.clone());
                    proof {
                        let sub = prev@.subrange(0, i as int);
                        let sub1 = prev@.subrange(0, i + 1 as int);
                        assert(sub1.drop_last() =~= sub);
                        assert(sub1.last() == prev@[i as int]);
                        assert(files.as_map() =~= fold_merge(s0.files, sub1));
                        lemma_entries_ok_after_insert(
                            files,
                            prefiles,
                            prev@[i as int].path,
                            prev@[i as int].entry,
                        );
                    }
                    i = i + 1;
                }
                proof {
                    assert(prev@.subrange(0, n as int) =~= prev@);
                    assert forall|x: int, y: int|
                        0 <= x < y < prev@.len() implies (#[trigger] prev@[x]).path != (
                    #[trigger] prev@[y]).path by {
                        crate::order::lemma_lex_total(prev@[x].path, prev@[y].path);
                    }
                    lemma_fold_merge(s0.files, prev@);
                    assert(files.as_map() =~= s0.files.union_prefer_right(s0.prev)) by {
                        assert forall|p: Seq<u8>|
                            #[trigger] fold_merge(s0.files, prev@).dom().contains(p)
                                == s0.files.union_prefer_right(s0.prev).dom().contains(p) by {
                            assert(s0.prev.dom().contains(p) == prev.contains_key(p));
                        }
                        assert forall|p: Seq<u8>|
                            fold_merge(s0.files, prev@).dom().contains(p) implies #[trigger] fold_merge(
                            s0.files,
                            prev@,
                        )[p] == s0.files.union_prefer_right(s0.prev)[p] by {
                            if prev.contains_key(p) {
                                let i = prev.index_of(p);
                                assert(prev@[i].path == p);
                                assert(fold_merge(s0.files, prev@)[p] == prev@[i].entry);
                                assert(s0.prev[p] == prev.value_at(p));
                            }
                        }
                    }
                }
                let m = Manifest { version, files };
                let mut qc = self.qc_out;
                let mut extra = self.quickcheck.into_records();
                proof {
                    assert(qc_views(qc@ + extra@) =~= s0.qc_out + self.quickcheck@.map_values(
                        |sl: crate::quickcheck::QcSlotV| sl.rec,
                    ));
                }
                qc.append(&mut extra);
                (m, qc, self.stats)
            },
        }
    }
}

/// Idempotence, per file: when the quickcheck index still vouches for the
/// path — same fingerprint, same known modification time — and the prior
/// manifest holds the path with that same raw metadata, the visit reuses
/// the prior entry verbatim: digesting is skipped, nothing is compressed,
/// nothing counts as updated, and the recorded entry is the prior one,
/// whatever the disk would have answered.
pub proof fn lemma_unchanged_file_reused(
    s: SessionV,
    p: Seq<u8>,
    t: u64,
    dg: ProbeV,
    probe: ProbeV,
)
    requires
        model_accepts(s, p),
        s.qc.dom().contains(crc_of(p)),
        s.qc[crc_of(p)].mtime == Some(t),
        s.prev.dom().contains(p),
        s.prev[p].raw == s.qc[crc_of(p)].meta,
    ensures
        ({
            let (s2, v) = model_visit(s, p, Some(t), dg, probe);
            &&& model_begin(s, p, Some(t)).1 == BeginV::Trusted(s.qc[crc_of(p)].meta)
            &&& v == VisitV::Done
            &&& s2.files == s.files.insert(p, s.prev[p])
            &&& s2.stats.compress == s.stats.compress
            &&& s2.stats.updated == s.stats.updated
            &&& s2.stats.ignored == s.stats.ignored
            &&& s2.stats.total == bump(s.stats.total)
            &&& s2.stats.quickcheck == bump(s.stats.quickcheck)
            &&& s2.qc_out == s.qc_out.push(qc_record_of(p, Some(t), s.prev[p].raw))
        }),
{
}

/// Quickcheck correctness: with the fingerprint present in the index, a
/// known and unchanged modification time skips digesting and yields the
/// stored metadata; any other observation — a different time, or a missing
/// time on either side — forces a fresh digest.
pub proof fn lemma_quickcheck_gate(s: SessionV, p: Seq<u8>, mtime: Option<u64>)
    requires
        model_accepts(s, p),
        s.qc.dom().contains(crc_of(p)),
    ensures
        s.qc[crc_of(p)].mtime == mtime && mtime is Some ==> model_begin(s, p, mtime).1
            == BeginV::Trusted(s.qc[crc_of(p)].meta),
        s.qc[crc_of(p)].mtime != mtime || mtime is None ==> model_begin(s, p, mtime).1
            == BeginV::NeedDigest,
{
}

/// One observed file of a run: what the scanner saw and what the disk
/// would answer if consulted.
pub ghost struct Obs {
    pub path: Seq<u8>,
    pub mtime: Option<u64>,
    pub dg: ProbeV,
    pub probe: ProbeV,
}

/// A whole run: the files visited in order.
pub open spec fn model_run(s: SessionV, obs: Seq<Obs>) -> SessionV
    decreases obs.len(),
{
    if obs.len() == 0 {
        s
    } else {
        model_visit(
            model_run(s, obs.drop_last()),
            obs.last().path,
            obs.last().mtime,
            obs.last().dg,
            obs.last().probe,
        ).0
    }
}

/// The hypotheses of an unchanged rerun: every visited path is accepted,
/// distinct (also by fingerprint), still vouched for by the quickcheck
/// index, and unchanged against the prior manifest.
pub open spec fn unchanged_run(s: SessionV, obs: Seq<Obs>) -> bool {
    &&& (forall|i: int| 0 <= i < obs.len() ==> model_accepts(s, (#[trigger] obs[i]).path))
    &&& (forall|i: int| 0 <= i < obs.len() ==> (#[trigger] obs[i]).mtime is Some)
    &&& (forall|i: int, j: int|
        0 <= i < j < obs.len() ==> (#[trigger] obs[i]).path != (#[trigger] obs[j]).path)
    &&& (forall|i: int, j: int|
        0 <= i < j < obs.len() ==> crc_of((#[trigger] obs[i]).path) != crc_of(
            (#[trigger] obs[j]).path,
        ))
    &&& (forall|i: int|
        0 <= i < obs.len() ==> s.qc.dom().contains(crc_of((#[trigger] obs[i]).path)))
    &&& (forall|i: int|
        0 <= i < obs.len() ==> s.qc[crc_of((#[trigger] obs[i]).path)].mtime == obs[i].mtime)
    &&& (forall|i: int| 0 <= i < obs.len() ==> s.prev.dom().contains((#[trigger] obs[i]).path))
    &&& (forall|i: int|
        0 <= i < obs.len() ==> s.prev[(#[trigger] obs[i]).path].raw == s.qc[crc_of(
            obs[i].path,
        )].meta)
}

/// Idempotence of a whole run: visiting only unchanged files reuses every
/// prior entry, performs no compression, counts no update, and emits one
/// quickcheck record per file with the trusted metadata. Every file's
/// entry in the new table is its prior entry; nothing else enters it.
pub proof fn lemma_run_idempotent(s: SessionV, obs: Seq<Obs>)
    requires
        unchanged_run(s, obs),
    ensures
        ({
            let sf = model_run(s, obs);
            &&& sf.stats.compress == s.stats.compress
            &&& sf.stats.updated == s.stats.updated
            &&& sf.stats.ignored == s.stats.ignored
            &&& (s.stats.quickcheck == s.stats.total ==> sf.stats.quickcheck == sf.stats.total)
            &&& (forall|i: int|
                0 <= i < obs.len() ==> sf.files.dom().contains((#[trigger] obs[i]).path)
                    && sf.files[obs[i].path] == s.prev[obs[i].path])
            &&& (forall|p: Seq<u8>|
                #[trigger] sf.files.dom().contains(p) ==> s.files.dom().contains(p) || exists|i: int|
                    0 <= i < obs.len() && (#[trigger] obs[i]).path == p)
            &&& (forall|p: Seq<u8>|
                s.files.dom().contains(p) && !(exists|i: int|
                    0 <= i < obs.len() && (#[trigger] obs[i]).path == p) ==> #[trigger] sf.files.dom().contains(
                    p,
                ) && sf.files[p] == s.files[p])
            &&& sf.qc_out == s.qc_out + Seq::new(
                obs.len(),
                |i: int| qc_record_of(obs[i].path, obs[i].mtime, s.prev[obs[i].path].raw),
            )
            &&& sf.select == s.select
            &&& sf.select_all == s.select_all
            &&& sf.exclude == s.exclude
            &&& sf.output == s.output
        }),
    decreases obs.len(),
{
    if obs.len() == 0 {
        assert(s.qc_out + Seq::new(0, |i: int| qc_record_of(obs[i].path, obs[i].mtime, s.prev[obs[i].path].raw)) =~= s.qc_out);
    } else {
        let t = obs.drop_last();
        let o = obs.last();
        assert(unchanged_run(s, t)) by {
            assert(forall|i: int| 0 <= i < t.len() ==> t[i] == obs[i]);
        }
        lemma_run_idempotent(s, t);
        let sm = model_run(s, t);
        assert(obs[obs.len() - 1] == o);
        assert(model_accepts(s, o.path) && o.mtime is Some);
        assert(model_accepts(sm, o.path));
        assert(sm.qc.dom().contains(crc_of(o.path)) && sm.qc[crc_of(o.path)] == s.qc[crc_of(
            o.path,
        )]) by {
            lemma_qc_preserved(s, t, crc_of(o.path));
        }
        assert(sm.prev.dom().contains(o.path) && sm.prev[o.path] == s.prev[o.path]) by {
            lemma_prev_preserved(s, t, o.path);
        }
        let mt = o.mtime->0;
        lemma_unchanged_file_reused(sm, o.path, mt, o.dg, o.probe);
        let sf = model_run(s, obs);
        assert(sf == model_visit(sm, o.path, o.mtime, o.dg, o.probe).0);
        assert(sf.files == sm.files.insert(o.path, sm.prev[o.path]));
        assert forall|p: Seq<u8>| #[trigger] sf.files.dom().contains(p) implies
            s.files.dom().contains(p) || exists|i: int|
            0 <= i < obs.len() && (#[trigger] obs[i]).path == p by {
            if p == o.path {
                assert(obs[obs.len() - 1].path == p);
            } else {
                if exists|i: int| 0 <= i < t.len() && (#[trigger] t[i]).path == p {
                    let i = choose|i: int| 0 <= i < t.len() && (#[trigger] t[i]).path == p;
                    assert(obs[i].path == p);
                }
            }
        }
        assert forall|i: int| 0 <= i < obs.len() implies sf.files.dom().contains(
            (#[trigger] obs[i]).path,
        ) && sf.files[obs[i].path] == s.prev[obs[i].path] by {
            if i < obs.len() - 1 {
                assert(t[i] == obs[i]);
                assert(obs[i].path != o.path);
            }
        }
        assert forall|p: Seq<u8>|
            s.files.dom().contains(p) && !(exists|i: int|
                0 <= i < obs.len() && (#[trigger] obs[i]).path == p) implies
            #[trigger] sf.files.dom().contains(p) && sf.files[p] == s.files[p] by {
            assert(forall|i: int| 0 <= i < t.len() ==> (#[trigger] t[i]).path != p);
            assert(o.path != p) by {
                assert(obs[obs.len() - 1] == o);
            }
        }
        assert(sf.qc_out =~= s.qc_out + Seq::new(
            obs.len(),
            |i: int| qc_record_of(obs[i].path, obs[i].mtime, s.prev[obs[i].path].raw),
        )) by {
            assert(forall|i: int| 0 <= i < t.len() ==> t[i] == obs[i]);
        }
    }
}

/// A run of unchanged files only removes the visited fingerprints from the
/// quickcheck index.
proof fn lemma_qc_preserved(s: SessionV, obs: Seq<Obs>, c: u32)
    requires
        unchanged_run(s, obs),
        forall|i: int| 0 <= i < obs.len() ==> crc_of((#[trigger] obs[i]).path) != c,
        s.qc.dom().contains(c),
    ensures
        model_run(s, obs).qc.dom().contains(c),
        model_run(s, obs).qc[c] == s.qc[c],
    decreases obs.len(),
{
    if obs.len() > 0 {
        let t = obs.drop_last();
        let o = obs.last();
        assert(unchanged_run(s, t)) by {
            assert(forall|i: int| 0 <= i < t.len() ==> t[i] == obs[i]);
        }
        lemma_qc_preserved(s, t, c);
        lemma_run_idempotent(s, t);
        let sm = model_run(s, t);
        assert(obs[obs.len() - 1] == o);
        assert(model_accepts(s, o.path) && o.mtime is Some);
        assert(model_accepts(sm, o.path));
        assert(sm.qc.dom().contains(crc_of(o.path)) && sm.qc[crc_of(o.path)] == s.qc[crc_of(
            o.path,
        )]) by {
            lemma_qc_preserved(s, t, crc_of(o.path));
        }
        assert(sm.prev.dom().contains(o.path) && sm.prev[o.path] == s.prev[o.path]) by {
            lemma_prev_preserved(s, t, o.path);
        }
        lemma_unchanged_file_reused(sm, o.path, o.mtime->0, o.dg, o.probe);
        assert(crc_of(o.path) != c) by {
            assert(obs[obs.len() - 1] == o);
        }
    }
}

/// A run of unchanged files only removes the visited paths from the prior
/// manifest table.
proof fn lemma_prev_preserved(s: SessionV, obs: Seq<Obs>, p: Seq<u8>)
    requires
        unchanged_run(s, obs),
        forall|i: int| 0 <= i < obs.len() ==> (#[trigger] obs[i]).path != p,
        s.prev.dom().contains(p),
    ensures
        model_run(s, obs).prev.dom().contains(p),
        model_run(s, obs).prev[p] == s.prev[p],
    decreases obs.len(),
{
    if obs.len() > 0 {
        let t = obs.drop_last();
        let o = obs.last();
        assert(unchanged_run(s, t)) by {
            assert(forall|i: int| 0 <= i < t.len() ==> t[i] == obs[i]);
        }
        lemma_prev_preserved(s, t, p);
        lemma_run_idempotent(s, t);
        let sm = model_run(s, t);
        assert(obs[obs.len() - 1] == o);
        assert(model_accepts(s, o.path) && o.mtime is Some);
        assert(model_accepts(sm, o.path));
        assert(sm.qc.dom().contains(crc_of(o.path)) && sm.qc[crc_of(o.path)] == s.qc[crc_of(
            o.path,
        )]) by {
            lemma_qc_preserved(s, t, crc_of(o.path));
        }
        assert(sm.prev.dom().contains(o.path) && sm.prev[o.path] == s.prev[o.path]) by {
            lemma_prev_preserved(s, t, o.path);
        }
        lemma_unchanged_file_reused(sm, o.path, o.mtime->0, o.dg, o.probe);
        assert(o.path != p) by {
            assert(obs[obs.len() - 1] == o);
        }
    }
}

/// Idempotence at the table level: a run that visits exactly the prior
/// manifest's paths, all unchanged, finishes a tree walk with the prior
/// mapping itself. Both tables being sorted, the persisted manifests are
/// then identical.
pub proof fn lemma_run_idempotent_manifest(s: SessionV, obs: Seq<Obs>)
    requires
        unchanged_run(s, obs),
        s.files == Map::<Seq<u8>, EntryV>::empty(),
        forall|p: Seq<u8>|
            #[trigger] s.prev.dom().contains(p) ==> exists|i: int|
                0 <= i < obs.len() && (#[trigger] obs[i]).path == p,
    ensures
        model_finish_files(model_run(s, obs), ScanMode::TreeWalk) =~= s.prev,
{
    lemma_run_idempotent(s, obs);
    let sf = model_run(s, obs);
    assert forall|p: Seq<u8>| #[trigger] sf.files.dom().contains(p) implies
        s.prev.dom().contains(p) && sf.files[p] == s.prev[p] by {
        let i = choose|i: int| 0 <= i < obs.len() && (#[trigger] obs[i]).path == p;
        assert(sf.files[obs[i].path] == s.prev[obs[i].path]);
    }
    assert forall|p: Seq<u8>| #[trigger] s.prev.dom().contains(p) implies
        sf.files.dom().contains(p) by {
        let i = choose|i: int| 0 <= i < obs.len() && (#[trigger] obs[i]).path == p;
        assert(sf.files.dom().contains(obs[i].path));
    }
}

/// Content addressing: two distinct paths with byte-identical content
/// produce one compressed artifact. The first visit misses the store and
/// asks for compression at the digest-derived location; after its result
/// is committed, the second visit — same digest, and a store probe that
/// answers with the artifact just written — reuses the compressed metadata
/// without any further compression. Exactly one compression is counted and
/// both entries carry the same compressed metadata.
pub proof fn lemma_content_addressing(
    s: SessionV,
    p1: Seq<u8>,
    p2: Seq<u8>,
    mt1: Option<u64>,
    mt2: Option<u64>,
    m: MetaV,
    pair: PairV,
)
    requires
        p1 != p2,
        model_accepts(s, p1),
        model_accepts(s, p2),
        !s.qc.dom().contains(crc_of(p1)),
        !s.qc.dom().contains(crc_of(p2)),
        !s.prev.dom().contains(p1),
        !s.prev.dom().contains(p2),
        pair.raw == m,
        s.stats.compress < u64::MAX,
    ensures
        ({
            let (s1, v1) = model_visit(s, p1, mt1, ProbeV::Found(m), ProbeV::Missing);
            let s1c = model_commit(s1, p1, mt1, m, pair, true);
            let (s2, v2) = model_visit(
                s1c,
                p2,
                mt2,
                ProbeV::Found(m),
                ProbeV::Found(pair.compressed),
            );
            &&& v1 == VisitV::NeedCompress(store_path_of(s.output, m.hash), m)
            &&& v2 == VisitV::Done
            &&& s2.stats.compress == s.stats.compress + 1
            &&& s2.files.dom().contains(p1) && s2.files[p1].compressed == pair.compressed
            &&& s2.files.dom().contains(p2) && s2.files[p2].compressed == pair.compressed
        }),
{
}


/// Removal semantics: a previously known path that was never visited this
/// run is dropped from the manifest by a tree walk, and carried forward
/// unchanged by a list-driven run.
pub proof fn lemma_removal_semantics(s: SessionV, p: Seq<u8>)
    requires
        s.prev.dom().contains(p),
        !s.files.dom().contains(p),
    ensures
        !model_finish_files(s, ScanMode::TreeWalk).dom().contains(p),
        model_finish_files(s, ScanMode::FileList).dom().contains(p),
        model_finish_files(s, ScanMode::FileList)[p] == s.prev[p],
{
}

} // verus!
