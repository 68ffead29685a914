//! Archive assembly: pick the manifest entries that the placement index
//! assigns to a selected archive, and say where each one's bytes come from.
//!
//! The placement index is an external, read-only artifact: it maps a path
//! fingerprint to an archive number and a category whose low byte says
//! whether the stored form is the compressed artifact. Entries the index
//! does not mention stay loose. Archives whose declared path does not match
//! the operator's filter are never touched. The plan is computed here; the
//! caller streams bytes and owns the archive handles, opening each selected
//! archive exactly once through the [`Registry`].

use vstd::prelude::*;

use crate::cache::store_path_of;
use crate::hashes::crc_of;
use crate::manifest::{Manifest, begins};
use crate::matcher::Matcher;
use crate::meta::{FileMeta, MetaV, EntryV};
use crate::pathmap::{PathMap, PathEntryV};

verus! {

/// Command-line arguments of the pack subcommand.
pub struct Args {
    /// Glob that an archive's declared path must match to be written.
    pub filter: String,
}

/// One placement-index record.
#[derive(Clone, Copy, PartialEq, Eq, Structural)]
pub struct PkiRef {
    /// Fingerprint of the logical path.
    pub crc: u32,
    /// Category flags; a nonzero low byte means "stored compressed".
    pub category: u32,
    /// Index of the destination archive.
    pub pack_file: u32,
}

/// The placement index as plain values.
pub struct PackIndex {
    /// Declared archive paths, in index order.
    pub archives: Vec<Vec<u8>>,
    /// Fingerprint records.
    pub files: Vec<PkiRef>,
}

/// Relies on `assembly_pack::pki::core::PackIndexFile::from_file`: loads
/// and parses the binary placement index; what comes back depends on the
/// file, so nothing is stated beyond the conversion to plain values.
#[verifier::external_body]
pub fn load_pack_index(path: &[u8]) -> (r: Result<PackIndex, String>)
{
    let Ok(p) = std::str::from_utf8(path) else {
        return Err(String::from("placement index path is not valid text"));
    };
    match assembly_pack::pki::core::PackIndexFile::from_file(std::path::Path::new(p)) {
        Ok(pki) => Ok(
            PackIndex {
                archives: pki.archives.into_iter().map(|a| a.path.into_bytes()).collect(),
                files: pki.files.into_iter().map(
                    |(crc, r)| PkiRef { crc, category: r.category, pack_file: r.pack_file },
                ).collect(),
            },
        ),
        Err(e) => Err(format!("cannot load placement index: {}", e)),
    }
}

/// The first record for a fingerprint, if any.
pub open spec fn pki_lookup(files: Seq<PkiRef>, crc: u32) -> Option<PkiRef>
    decreases files.len(),
{
    if files.len() == 0 {
        None
    } else if files.first().crc == crc {
        Some(files.first())
    } else {
        pki_lookup(files.drop_first(), crc)
    }
}

/// Find the record for a fingerprint.
pub fn find_ref(files: &Vec<PkiRef>, crc: u32) -> (r: Option<PkiRef>)
    ensures
        r == pki_lookup(files@, crc),
{
    let n = files.len();
    let mut i: usize = 0;
    proof {
        assert(files@.skip(0) =~= files@);
    }
    while i < n
        invariant
            0 <= i <= n,
            n == files@.len(),
            pki_lookup(files@, crc) == pki_lookup(files@.skip(i as int), crc),
        decreases n - i,
    {
        let f = files[i];
        proof {
            assert(files@.skip(i as int).first() == files@[i as int]);
            assert(files@.skip(i as int).drop_first() =~= files@.skip(i + 1 as int));
        }
        if f.crc == crc {
            return Some(f);
        }
        i = i + 1;
    }
    proof {
        assert(files@.skip(n as int).len() == 0);
    }
    None
}

/// Which archives the operator's filter selects.
pub fn select_archives(archives: &Vec<Vec<u8>>, filter: &Matcher) -> (r: Vec<bool>)
    ensures
        r@.len() == archives@.len(),
        forall|i: int|
            0 <= i < archives@.len() ==> r@[i] == filter.spec_accepts(
                (#[trigger] archives@[i])@,
            ),
{
    let mut r: Vec<bool> = Vec::new();
    let n = archives.len();
    let mut i: usize = 0;
    while i < n
        invariant
            0 <= i <= n,
            n == archives@.len(),
            r@.len() == i,
            forall|j: int|
                0 <= j < i ==> r@[j] == filter.spec_accepts((#[trigger] archives@[j])@),
        decreases n - i,
    {
        r.push(filter.accepts(archives[i].as_slice()));
        i = i + 1;
    }
    r
}

/// Where a packed entry's bytes come from.
pub enum SourceLoc {
    /// The compressed artifact in the content-addressed store, full path.
    Store(Vec<u8>),
    /// The original project file, as a project-relative logical path.
    Project(Vec<u8>),
}

/// Mathematical value of a [`SourceLoc`].
pub ghost enum SourceLocV {
    Store(Seq<u8>),
    Project(Seq<u8>),
}

impl View for SourceLoc {
    type V = SourceLocV;

    open spec fn view(&self) -> SourceLocV {
        match self {
            SourceLoc::Store(v) => SourceLocV::Store(v@),
            SourceLoc::Project(v) => SourceLocV::Project(v@),
        }
    }
}

/// One write into an archive.
pub struct PackItem {
    /// Fingerprint under which the entry is stored in the archive.
    pub crc: u32,
    /// The destination archive's index.
    pub archive: u32,
    /// Whether the stored bytes are the compressed artifact.
    pub compressed: bool,
    /// Where the bytes come from.
    pub source: SourceLoc,
    /// Raw content metadata for the archive entry's header.
    pub raw: FileMeta,
    /// Compressed content metadata for the archive entry's header.
    pub compressed_meta: FileMeta,
}

/// Mathematical value of a [`PackItem`].
#[verifier::ext_equal]
pub ghost struct PackItemV {
    pub crc: u32,
    pub archive: u32,
    pub compressed: bool,
    pub source: SourceLocV,
    pub raw: MetaV,
    pub compressed_meta: MetaV,
}

impl View for PackItem {
    type V = PackItemV;

    open spec fn view(&self) -> PackItemV {
        PackItemV {
            crc: self.crc,
            archive: self.archive,
            compressed: self.compressed,
            source: self.source@,
            raw: self.raw@,
            compressed_meta: self.compressed_meta@,
        }
    }
}

/// The decision for one manifest entry.
pub ghost enum DecisionV {
    /// Not placed, or placed in an unselected archive: left loose.
    Skip,
    /// Written into an archive.
    Take(PackItemV),
    /// A loose-file source cannot be resolved: the path lacks the prefix.
    BadPath,
}

/// What the placement index decides for one entry: unmentioned or
/// unselected entries stay loose; a selected entry is sourced from the
/// store when its category's low byte is set, else from the project file
/// named by the path without its prefix.
pub open spec fn spec_pack_decision(
    p: Seq<u8>,
    e: EntryV,
    files: Seq<PkiRef>,
    sel: Seq<bool>,
    output: Seq<u8>,
    strip: Seq<u8>,
) -> DecisionV {
    match pki_lookup(files, crc_of(p)) {
        None => DecisionV::Skip,
        Some(r) => {
            if !(r.pack_file < sel.len() && sel[r.pack_file as int]) {
                DecisionV::Skip
            } else {
                let compressed = r.category % 256 > 0;
                if compressed {
                    DecisionV::Take(
                        PackItemV {
                            crc: crc_of(p),
                            archive: r.pack_file,
                            compressed: true,
                            source: SourceLocV::Store(store_path_of(output, e.raw.hash)),
                            raw: e.raw,
                            compressed_meta: e.compressed,
                        },
                    )
                } else if begins(p, 0, strip) {
                    DecisionV::Take(
                        PackItemV {
                            crc: crc_of(p),
                            archive: r.pack_file,
                            compressed: false,
                            source: SourceLocV::Project(p.skip(strip.len() as int)),
                            raw: e.raw,
                            compressed_meta: e.compressed,
                        },
                    )
                } else {
                    DecisionV::BadPath
                }
            }
        },
    }
}

/// The whole plan from position `i` on: the items of every selected entry,
/// in manifest order, or the first path that cannot be resolved.
pub open spec fn spec_plan_from(
    entries: Seq<PathEntryV>,
    i: int,
    files: Seq<PkiRef>,
    sel: Seq<bool>,
    output: Seq<u8>,
    strip: Seq<u8>,
) -> Result<Seq<PackItemV>, Seq<u8>>
    decreases entries.len() - i,
{
    if i < 0 || i >= entries.len() {
        Ok(Seq::empty())
    } else {
        match spec_pack_decision(entries[i].path, entries[i].entry, files, sel, output, strip) {
            DecisionV::BadPath => Err(entries[i].path),
            DecisionV::Skip => spec_plan_from(entries, i + 1, files, sel, output, strip),
            DecisionV::Take(it) => match spec_plan_from(entries, i + 1, files, sel, output, strip) {
                Ok(rest) => Ok(seq![it] + rest),
                Err(e) => Err(e),
            },
        }
    }
}

/// The views of a plan.
pub open spec fn item_views(v: Seq<PackItem>) -> Seq<PackItemV> {
    v.map_values(|it: PackItem| it@)
}

/// Result of [`pack_decision`].
enum Decision {
    Skip,
    Take(PackItem),
    BadPath,
}

/// Decide one manifest entry.
fn pack_decision(
    path: &[u8],
    entry: &crate::meta::FileEntry,
    files: &Vec<PkiRef>,
    sel: &Vec<bool>,
    output: &[u8],
    strip: &[u8],
) -> (r: Decision)
    requires
        entry.wf(),
    ensures
        match r {
            Decision::Take(it) => spec_pack_decision(path@, entry@, files@, sel@, output@, strip@)
                == DecisionV::Take(it@),
            Decision::Skip => spec_pack_decision(path@, entry@, files@, sel@, output@, strip@)
                == DecisionV::Skip,
            Decision::BadPath => spec_pack_decision(path@, entry@, files@, sel@, output@, strip@)
                == DecisionV::BadPath,
        },
{
    let crc = assembly_pack::crc::calculate_crc(path);
    let r = match find_ref(files, crc) {
        None => {
            return Decision::Skip;
        },
        Some(r) => r,
    };
    if !((r.pack_file as usize) < sel.len() && sel[r.pack_file as usize]) {
        return Decision::Skip;
    }
    let compressed = r.category % 256 > 0;
    if compressed {
        let mut source = vstd::slice::slice_to_vec(output);
        source.push(47);
        let rel = crate::cache::hash_to_path(&entry.raw.hash);
        source.extend_from_slice(rel.as_slice());
        proof {
            assert(source@ =~= store_path_of(output@, entry.raw.hash@));
        }
        Decision::Take(
            PackItem {
                crc,
                archive: r.pack_file,
                compressed: true,
                source: SourceLoc::Store(source),
                raw: entry.raw.clone(),
                compressed_meta: entry.compressed.clone(),
            },
        )
    } else {
        match crate::scan::strip_prefix_bytes(path, strip) {
            Some(rel) => Decision::Take(
                PackItem {
                    crc,
                    archive: r.pack_file,
                    compressed: false,
                    source: SourceLoc::Project(rel),
                    raw: entry.raw.clone(),
                    compressed_meta: entry.compressed.clone(),
                },
            ),
            None => Decision::BadPath,
        }
    }
}

/// Compute the whole pack plan for a manifest: one item per entry that the
/// placement index assigns to a selected archive, in manifest order.
///
/// Fails, naming the path, when a loose-file source cannot be resolved
/// against the project prefix.
pub fn plan_pack(
    manifest: &Manifest,
    idx: &PackIndex,
    sel: &Vec<bool>,
    output: &[u8],
    strip: &[u8],
) -> (r: Result<Vec<PackItem>, Vec<u8>>)
    requires
        manifest.wf(),
    ensures
        match r {
            Ok(v) => spec_plan_from(manifest.files@, 0, idx.files@, sel@, output@, strip@)
                == Ok::<Seq<PackItemV>, Seq<u8>>(item_views(v@)),
            Err(p) => spec_plan_from(manifest.files@, 0, idx.files@, sel@, output@, strip@)
                == Err::<Seq<PackItemV>, Seq<u8>>(p@),
        },
{
    let ghost es = manifest.files@;
    let mut out: Vec<PackItem> = Vec::new();
    let n = manifest.files.entries.len();
    let mut i: usize = 0;
    while i < n
        invariant
            0 <= i <= n,
            n == es.len(),
            es == manifest.files@,
            manifest.wf(),
            ({
                let full = spec_plan_from(es, 0, idx.files@, sel@, output@, strip@);
                let rest = spec_plan_from(es, i as int, idx.files@, sel@, output@, strip@);
                match rest {
                    Ok(v) => full == Ok::<Seq<PackItemV>, Seq<u8>>(item_views(out@) + v),
                    Err(e) => full == Err::<Seq<PackItemV>, Seq<u8>>(e),
                }
            }),
        decreases n - i,
    {
        let pe = &manifest.files.entries[i];
        proof {
            assert(pe@ == es[i as int]);
            assert(es[i as int].entry.wf());
        }
        match pack_decision(
            pe.path.as_slice(),
            &pe.entry,
            &idx.files,
            sel,
            output,
            strip,
        ) {
            Decision::Take(it) => {
                let ghost itv = it@;
                let ghost preout = out@;
                out.push(it);
                proof {
                    lemma_plan_prefix_take(es, i as int, idx.files@, sel@, output@, strip@, itv);
                    let rest1 = spec_plan_from(es, i + 1 as int, idx.files@, sel@, output@, strip@);
                    match rest1 {
                        Ok(v) => {
                            assert(item_views(preout) + (seq![itv] + v) =~= item_views(out@) + v);
                        },
                        Err(e) => {},
                    }
                }
            },
            Decision::Skip => {
                proof {
                    assert(spec_plan_from(es, i as int, idx.files@, sel@, output@, strip@)
                        == spec_plan_from(es, i + 1 as int, idx.files@, sel@, output@, strip@));
                }
            },
            Decision::BadPath => {
                return Err(vstd::slice::slice_to_vec(pe.path.as_slice()));
            },
        }
        i = i + 1;
    }
    proof {
        assert(spec_plan_from(es, n as int, idx.files@, sel@, output@, strip@) == Ok::<
            Seq<PackItemV>,
            Seq<u8>,
        >(Seq::empty()));
        assert(item_views(out@) + Seq::<PackItemV>::empty() =~= item_views(out@));
    }
    Ok(out)
}

/// Taking an item moves it from the remaining plan to the prefix.
proof fn lemma_plan_prefix_take(
    entries: Seq<PathEntryV>,
    i: int,
    files: Seq<PkiRef>,
    sel: Seq<bool>,
    output: Seq<u8>,
    strip: Seq<u8>,
    it: PackItemV,
)
    requires
        0 <= i < entries.len(),
        spec_pack_decision(entries[i].path, entries[i].entry, files, sel, output, strip)
            == DecisionV::Take(it),
    ensures
        ({
            let rest = spec_plan_from(entries, i + 1, files, sel, output, strip);
            match rest {
                Ok(v) => spec_plan_from(entries, i, files, sel, output, strip) == Ok::<
                    Seq<PackItemV>,
                    Seq<u8>,
                >(seq![it] + v),
                Err(e) => spec_plan_from(entries, i, files, sel, output, strip) == Err::<
                    Seq<PackItemV>,
                    Seq<u8>,
                >(e),
            }
        }),
{
}

/// The archive registry: which archives a pack run has opened, in first-use
/// order. Each archive is opened at most once; the caller keeps its handles
/// in the same order and finalizes each exactly once at the end.
pub struct Registry {
    pub opened: Vec<u32>,
}

impl Registry {
    /// No archive appears twice.
    pub open spec fn wf(&self) -> bool {
        forall|i: int, j: int|
            0 <= i < j < self.opened@.len() ==> self.opened@[i] != self.opened@[j]
    }

    /// An empty registry.
    pub fn new() -> (r: Registry)
        ensures
            r.wf(),
            r.opened@ =~= Seq::<u32>::empty(),
    {
        Registry { opened: Vec::new() }
    }

    /// The slot of archive `id`, opening it on first reference.
    ///
    /// Returns the position of the archive's handle and whether it was
    /// opened just now — exactly once per archive over a whole run.
    pub fn get_or_open(&mut self, id: u32) -> (r: (usize, bool))
        requires
            old(self).wf(),
        ensures
            final(self).wf(),
            r.0 < final(self).opened@.len(),
            final(self).opened@[r.0 as int] == id,
            r.1 == !old(self).opened@.contains(id),
            r.1 ==> final(self).opened@ == old(self).opened@.push(id) && r.0 == old(
                self,
            ).opened@.len(),
            !r.1 ==> final(self).opened@ == old(self).opened@,
    {
        let n = self.opened.len();
        let mut i: usize = 0;
        while i < n
            invariant
                0 <= i <= n,
                n == self.opened@.len(),
                *self == *old(self),
                old(self).wf(),
                forall|j: int| 0 <= j < i ==> self.opened@[j] != id,
            decreases n - i,
        {
            if self.opened[i] == id {
                proof {
                    assert(self.opened@.contains(id));
                }
                return (i, false);
            }
            i = i + 1;
        }
        proof {
            assert(!self.opened@.contains(id));
        }
        self.opened.push(id);
        (n, true)
    }

    /// How many archives were opened.
    pub fn count(&self) -> (r: usize)
        ensures
            r == self.opened@.len(),
    {
        self.opened.len()
    }
}

/// Join a backslash-separated relative path onto a base directory.
pub fn win_join(base: &[u8], path: &[u8]) -> (r: Vec<u8>)
    ensures
        r@ == base@ + seq![47u8] + path@.map_values(|b: u8| if b == 92 { 47u8 } else { b }),
{
    let mut r = vstd::slice::slice_to_vec(base);
    r.push(47);
    let n = path.len();
    let mut i: usize = 0;
    while i < n
        invariant
            0 <= i <= n,
            n == path@.len(),
            r@ =~= base@ + seq![47u8] + path@.map_values(|b: u8| if b == 92 { 47u8 } else { b }).subrange(0, i as int),
        decreases n - i,
    {
        let b = path[i];
        if b == 92 {
            r.push(47);
        } else {
            r.push(b);
        }
        proof {
            assert(r@ =~= base@ + seq![47u8] + path@.map_values(
                |b: u8| if b == 92 { 47u8 } else { b },
            ).subrange(0, i + 1 as int));
        }
        i = i + 1;
    }
    proof {
        let m = path@.map_values(|b: u8| if b == 92 { 47u8 } else { b });
        assert(m.subrange(0, n as int) =~= m);
    }
    r
}

} // verus!
