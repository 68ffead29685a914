//! The manifest: a versioned table of every known asset.
//!
//! Persisted as line-oriented text: a `[version]` section with one line
//! `number,hash,name`, then a `[files]` section with one line per asset:
//! `path,rawsize,rawhash,compsize,comphash,checksum`. Serialization and
//! parsing are verified to round-trip.

use vstd::prelude::*;

use crate::codec::{dec_digits, dec_val, dec_run_end, is_dec_digit, is_hex_digit, hex_of, push_dec_u32, push_hex, parse_dec_u32, parse_hex, lemma_dec_digits_wf, lemma_dec_round_trip, lemma_dec_run_end_bounds, lemma_hex_of_digits, lemma_hex_round_trip};
use crate::meta::{Digest, FileMeta, FileEntry, MetaV, PairV, EntryV};
use crate::pathmap::{PathMap, PathEntryV, strictly_sorted};
use crate::order::lex_lt;

verus! {

/// A logical path as persisted: no separator, no line break.
pub open spec fn path_ok(p: Seq<u8>) -> bool {
    forall|i: int| 0 <= i < p.len() ==> p[i] != 44 && p[i] != 10 && p[i] != 13
}

/// A version label as persisted: no line break (commas are allowed).
pub open spec fn name_ok(n: Seq<u8>) -> bool {
    forall|i: int| 0 <= i < n.len() ==> n[i] != 10 && n[i] != 13
}

/// The version line of a manifest: number, hash of the number's decimal
/// text, and a human-readable label.
pub struct VersionInfo {
    pub number: u32,
    pub hash: Digest,
    pub name: Vec<u8>,
}

/// Mathematical value of a [`VersionInfo`].
#[verifier::ext_equal]
pub ghost struct VersionV {
    pub number: u32,
    pub hash: Seq<u8>,
    pub name: Seq<u8>,
}

impl VersionV {
    pub open spec fn wf(&self) -> bool {
        self.hash.len() == 16 && name_ok(self.name)
    }
}

impl View for VersionInfo {
    type V = VersionV;

    open spec fn view(&self) -> VersionV {
        VersionV { number: self.number, hash: self.hash@, name: self.name@ }
    }
}

impl VersionInfo {
    pub open spec fn wf(&self) -> bool {
        self@.wf()
    }
}

/// A manifest: the version line and the sorted file table.
pub struct Manifest {
    pub version: VersionInfo,
    pub files: PathMap,
}

/// Entries as they may appear in a manifest: sorted, well-formed, with
/// persistable paths.
pub open spec fn entries_ok(fs: Seq<PathEntryV>) -> bool {
    &&& strictly_sorted(fs)
    &&& forall|i: int| 0 <= i < fs.len() ==> (#[trigger] fs[i]).entry.wf() && path_ok(fs[i].path)
}

impl Manifest {
    pub open spec fn wf(&self) -> bool {
        self.version.wf() && entries_ok(self.files@)
    }
}

/// `"[version]\n"` as bytes.
pub open spec fn version_header() -> Seq<u8> {
    seq![91u8, 118u8, 101u8, 114u8, 115u8, 105u8, 111u8, 110u8, 93u8, 10u8]
}

/// `"[files]\n"` as bytes.
pub open spec fn files_header() -> Seq<u8> {
    seq![91u8, 102u8, 105u8, 108u8, 101u8, 115u8, 93u8, 10u8]
}

/// `size,hash` — the persisted text of one metadata value.
pub open spec fn meta_text(m: MetaV) -> Seq<u8> {
    dec_digits(m.size as nat) + seq![44u8] + hex_of(m.hash)
}

/// `path,rawmeta,compmeta` — the text the line checksum is computed over.
pub open spec fn entry_body_text(p: Seq<u8>, pair: PairV) -> Seq<u8> {
    p + seq![44u8] + meta_text(pair.raw) + seq![44u8] + meta_text(pair.compressed)
}

/// One full `[files]` line, newline included.
pub open spec fn entry_line_text(p: Seq<u8>, e: EntryV) -> Seq<u8> {
    entry_body_text(p, e.pair()) + seq![44u8] + hex_of(e.checksum) + seq![10u8]
}

/// The version line, newline included.
pub open spec fn version_line_text(v: VersionV) -> Seq<u8> {
    dec_digits(v.number as nat) + seq![44u8] + hex_of(v.hash) + seq![44u8] + v.name + seq![10u8]
}

/// The `[files]` section body: one line per entry, in order.
pub open spec fn entries_text(fs: Seq<PathEntryV>) -> Seq<u8>
    decreases fs.len(),
{
    if fs.len() == 0 {
        Seq::empty()
    } else {
        entries_text(fs.drop_last()) + entry_line_text(fs.last().path, fs.last().entry)
    }
}

/// The whole manifest file.
pub open spec fn manifest_text(v: VersionV, fs: Seq<PathEntryV>) -> Seq<u8> {
    version_header() + version_line_text(v) + files_header() + entries_text(fs)
}

/// Extending the entry list appends its line to the section text.
pub proof fn lemma_entries_text_push(fs: Seq<PathEntryV>, e: PathEntryV)
    ensures
        entries_text(fs.push(e)) == entries_text(fs) + entry_line_text(e.path, e.entry),
{
    assert(fs.push(e).drop_last() =~= fs);
    assert(fs.push(e).last() == e);
}

/// Append `"[version]\n"`.
fn push_version_header(out: &mut Vec<u8>)
    ensures
        final(out)@ == old(out)@ + version_header(),
{
    out.push(91);
    out.push(118);
    out.push(101);
    out.push(114);
    out.push(115);
    out.push(105);
    out.push(111);
    out.push(110);
    out.push(93);
    out.push(10);
    assert(out@ =~= old(out)@ + version_header());
}

/// Append `"[files]\n"`.
fn push_files_header(out: &mut Vec<u8>)
    ensures
        final(out)@ == old(out)@ + files_header(),
{
    out.push(91);
    out.push(102);
    out.push(105);
    out.push(108);
    out.push(101);
    out.push(115);
    out.push(93);
    out.push(10);
    assert(out@ =~= old(out)@ + files_header());
}

/// Append `size,hash`.
pub fn push_meta(out: &mut Vec<u8>, m: &FileMeta)
    ensures
        final(out)@ == old(out)@ + meta_text(m@),
{
    push_dec_u32(out, m.size);
    out.push(44);
    push_hex(out, m.hash.bytes.as_slice());
    assert(out@ =~= old(out)@ + meta_text(m@));
}

/// Append `path,rawmeta,compmeta` — the checksummed body of a line.
pub fn push_entry_body(out: &mut Vec<u8>, path: &[u8], raw: &FileMeta, compressed: &FileMeta)
    ensures
        final(out)@ == old(out)@ + entry_body_text(
            path@,
            PairV { raw: raw@, compressed: compressed@ },
        ),
{
    out.extend_from_slice(path);
    out.push(44);
    push_meta(out, raw);
    out.push(44);
    push_meta(out, compressed);
    assert(out@ =~= old(out)@ + entry_body_text(
        path@,
        PairV { raw: raw@, compressed: compressed@ },
    ));
}

/// Append one full `[files]` line.
fn push_entry_line(out: &mut Vec<u8>, path: &[u8], e: &FileEntry)
    ensures
        final(out)@ == old(out)@ + entry_line_text(path@, e@),
{
    push_entry_body(out, path, &e.raw, &e.compressed);
    out.push(44);
    push_hex(out, e.checksum.bytes.as_slice());
    out.push(10);
    assert(out@ =~= old(out)@ + entry_line_text(path@, e@));
}

/// Serialize a manifest to its persisted text.
pub fn serialize_manifest(m: &Manifest) -> (r: Vec<u8>)
    ensures
        r@ == manifest_text(m.version@, m.files@),
{
    let mut out: Vec<u8> = Vec::new();
    push_version_header(&mut out);
    push_dec_u32(&mut out, m.version.number);
    out.push(44);
    push_hex(&mut out, m.version.hash.bytes.as_slice());
    out.push(44);
    out.extend_from_slice(m.version.name.as_slice());
    out.push(10);
    push_files_header(&mut out);
    assert(out@ =~= version_header() + version_line_text(m.version@) + files_header());
    let ghost prefix = out@;
    let n = m.files.entries.len();
    let mut i: usize = 0;
    while i < n
        invariant
            0 <= i <= n,
            n == m.files@.len(),
            prefix == version_header() + version_line_text(m.version@) + files_header(),
            out@ == prefix + entries_text(m.files@.subrange(0, i as int)),
        decreases n - i,
    {
        let pe = &m.files.entries[i];
        push_entry_line(&mut out, pe.path.as_slice(), &pe.entry);
        proof {
            let sub = m.files@.subrange(0, i as int);
            let sub1 = m.files@.subrange(0, i + 1 as int);
            assert(sub1 =~= sub.push(m.files@[i as int]));
            lemma_entries_text_push(sub, m.files@[i as int]);
        }
        i = i + 1;
    }
    proof {
        assert(m.files@.subrange(0, n as int) =~= m.files@);
    }
    out
}


/// `t` occurs in `s` starting at position `i`.
pub open spec fn begins(s: Seq<u8>, i: int, t: Seq<u8>) -> bool {
    &&& 0 <= i
    &&& i + t.len() <= s.len()
    &&& forall|j: int| 0 <= j < t.len() ==> s[i + j] == t[j]
}

/// A part of an occurring string occurs at its offset.
pub proof fn lemma_begins_part(s: Seq<u8>, i: int, t: Seq<u8>, off: int, part: Seq<u8>)
    requires
        begins(s, i, t),
        0 <= off,
        off + part.len() <= t.len(),
        forall|j: int| 0 <= j < part.len() ==> t[off + j] == part[j],
    ensures
        begins(s, i + off, part),
{
    assert forall|j: int| 0 <= j < part.len() implies s[i + off + j] == part[j] by {
        assert(s[i + (off + j)] == t[off + j]);
    }
}

/// A run of digits bounded by a non-digit ends exactly at its bound.
pub proof fn lemma_dec_run_end_is(s: Seq<u8>, i: int, l: int)
    requires
        0 <= i,
        0 <= l,
        i + l <= s.len(),
        forall|t: int| 0 <= t < l ==> is_dec_digit(#[trigger] s[i + t]),
        i + l == s.len() || !is_dec_digit(s[i + l]),
    ensures
        dec_run_end(s, i) == i + l,
    decreases l,
{
    if l == 0 {
    } else {
        assert(is_dec_digit(s[i + 0]));
        assert forall|t: int| 0 <= t < l - 1 implies is_dec_digit(#[trigger] s[i + 1 + t]) by {
            assert(is_dec_digit(s[i + (1 + t)]));
        }
        lemma_dec_run_end_is(s, i + 1, l - 1);
    }
}

/// Section text distributes over concatenation of entry lists.
pub proof fn lemma_entries_text_concat(a: Seq<PathEntryV>, b: Seq<PathEntryV>)
    ensures
        entries_text(a + b) == entries_text(a) + entries_text(b),
    decreases b.len(),
{
    if b.len() == 0 {
        assert(a + b =~= a);
        assert(entries_text(a) + entries_text(b) =~= entries_text(a));
    } else {
        assert((a + b).drop_last() =~= a + b.drop_last());
        assert((a + b).last() == b.last());
        lemma_entries_text_concat(a, b.drop_last());
        assert(entries_text(a + b) =~= entries_text(a) + entries_text(b));
    }
}

/// Find the first comma at or after `i`, failing on a line break.
pub(crate) fn find_comma(s: &[u8], i: usize) -> (r: Option<usize>)
    requires
        i <= s@.len(),
    ensures
        match r {
            Some(c) => i <= c < s@.len() && s@[c as int] == 44 && forall|t: int|
                i <= t < c ==> s@[t] != 44 && s@[t] != 10 && s@[t] != 13,
            None => forall|c: int|
                i <= c < s@.len() && s@[c] == 44 ==> exists|t: int|
                    i <= t < c && (s@[t] == 10 || s@[t] == 13),
        },
{
    let n = s.len();
    let mut j: usize = i;
    while j < n
        invariant
            i <= j <= n,
            n == s@.len(),
            forall|t: int| i <= t < j ==> s@[t] != 44 && s@[t] != 10 && s@[t] != 13,
        decreases n - j,
    {
        let b = s[j];
        if b == 44 {
            return Some(j);
        }
        if b == 10 || b == 13 {
            proof {
                assert forall|c: int|
                    i <= c < s@.len() && s@[c] == 44 implies exists|t: int|
                    i <= t < c && (s@[t] == 10 || s@[t] == 13) by {
                    assert(c > j);
                    assert(i <= j < c && (s@[j as int] == 10 || s@[j as int] == 13));
                }
            }
            return None;
        }
        j = j + 1;
    }
    None
}

/// Find the first newline at or after `i`, failing on a carriage return.
pub(crate) fn find_newline(s: &[u8], i: usize) -> (r: Option<usize>)
    requires
        i <= s@.len(),
    ensures
        match r {
            Some(c) => i <= c < s@.len() && s@[c as int] == 10 && forall|t: int|
                i <= t < c ==> s@[t] != 10 && s@[t] != 13,
            None => forall|c: int|
                i <= c < s@.len() && s@[c] == 10 ==> exists|t: int|
                    i <= t < c && s@[t] == 13,
        },
{
    let n = s.len();
    let mut j: usize = i;
    while j < n
        invariant
            i <= j <= n,
            n == s@.len(),
            forall|t: int| i <= t < j ==> s@[t] != 10 && s@[t] != 13,
        decreases n - j,
    {
        let b = s[j];
        if b == 10 {
            return Some(j);
        }
        if b == 13 {
            proof {
                assert forall|c: int| i <= c < s@.len() && s@[c] == 10 implies exists|t: int|
                    i <= t < c && s@[t] == 13 by {
                    assert(c > j);
                    assert(i <= j < c && s@[j as int] == 13);
                }
            }
            return None;
        }
        j = j + 1;
    }
    None
}

/// What the text at `i` looks like when it holds `size,hash` for `mv`.
proof fn lemma_meta_witness(s: Seq<u8>, i: int, mv: MetaV)
    requires
        mv.wf(),
        begins(s, i, meta_text(mv)),
    ensures
        ({
            let d = dec_digits(mv.size as nat);
            &&& dec_run_end(s, i) == i + d.len()
            &&& i < dec_run_end(s, i)
            &&& dec_val(s.subrange(i, i + d.len())) == mv.size as nat
            &&& i + d.len() < s.len()
            &&& s[i + d.len()] == 44
            &&& begins(s, i + d.len() + 1, hex_of(mv.hash))
            &&& (forall|k: int|
                i + d.len() + 1 <= k < i + d.len() + 33 ==> is_hex_digit(#[trigger] s[k]))
            &&& meta_text(mv).len() == d.len() + 33
            &&& mv.hash.len() == 16
        }),
{
    let d = dec_digits(mv.size as nat);
    lemma_dec_digits_wf(mv.size as nat);
    assert forall|t: int| 0 <= t < d.len() implies is_dec_digit(#[trigger] s[i + t]) by {
        assert(s[i + t] == meta_text(mv)[t]);
        assert(meta_text(mv)[t] == d[t]);
    }
    assert(s[i + d.len()] == meta_text(mv)[d.len() as int]);
    assert(meta_text(mv)[d.len() as int] == 44);
    lemma_dec_run_end_is(s, i, d.len() as int);
    assert forall|t: int| 0 <= t < d.len() implies s.subrange(i, i + d.len())[t] == d[t] by {
        assert(s[i + t] == meta_text(mv)[t]);
        assert(meta_text(mv)[t] == d[t]);
    }
    assert(s.subrange(i, i + d.len()) =~= d);
    lemma_dec_round_trip(mv.size as nat);
    lemma_begins_part(s, i, meta_text(mv), d.len() + 1 as int, hex_of(mv.hash));
    lemma_hex_of_digits(mv.hash);
    assert forall|k: int|
        i + d.len() + 1 <= k < i + d.len() + 33 implies is_hex_digit(#[trigger] s[k]) by {
        let t = k - (i + d.len() + 1);
        assert(s[i + d.len() + 1 + t] == hex_of(mv.hash)[t]);
    }
}

/// Parse a canonical decimal at `i`: the maximal digit run as a `u32`,
/// rejecting a redundant leading zero, so the accepted text is exactly the
/// value's own digit string.
fn parse_dec_canonical(s: &[u8], i: usize) -> (r: Option<(u32, usize)>)
    requires
        i <= s@.len(),
    ensures
        ({
            let e = dec_run_end(s@, i as int);
            match r {
                Some((v, j)) => {
                    &&& j == e
                    &&& i < e
                    &&& v as nat == dec_val(s@.subrange(i as int, e))
                    &&& s@.subrange(i as int, e) =~= dec_digits(v as nat)
                },
                None => i as int == e || dec_val(s@.subrange(i as int, e)) > u32::MAX || (e - i
                    > 1 && s@[i as int] == 48),
            }
        }),
{
    proof {
        lemma_dec_run_end_bounds(s@, i as int);
    }
    match parse_dec_u32(s, i) {
        None => None,
        Some((v, j)) => {
            if j - i > 1 && s[i] == 48 {
                return None;
            }
            proof {
                let w = s@.subrange(i as int, j as int);
                assert(w.len() >= 1);
                assert(forall|t: int| 0 <= t < w.len() ==> is_dec_digit(#[trigger] w[t])) by {
                    assert(forall|t: int| 0 <= t < w.len() ==> w[t] == s@[i + t]);
                }
                assert(w[0] == s@[i as int]);
                crate::codec::lemma_dec_digits_exact(w);
            }
            Some((v, j))
        },
    }
}

/// Parse `size,hash` at position `i`.
fn parse_meta(s: &[u8], i: usize) -> (r: Option<(FileMeta, usize)>)
    requires
        i <= s@.len(),
    ensures
        (r matches Some(x) ==> x.0.wf() && i < x.1 <= s@.len() && s@.subrange(
            i as int,
            x.1 as int,
        ) =~= meta_text(x.0@)),
        forall|mv: MetaV|
            mv.wf() && #[trigger] begins(s@, i as int, meta_text(mv)) ==> (r matches Some(x)
                && x.0@ == mv && x.1 == i + meta_text(mv).len()),
{
    let num = parse_dec_canonical(s, i);
    let (size, p1) = match num {
        Some(x) => x,
        None => {
            proof {
                assert forall|mv: MetaV|
                    mv.wf() && #[trigger] begins(s@, i as int, meta_text(mv)) implies false by {
                    lemma_meta_witness(s@, i as int, mv);
                    crate::codec::lemma_dec_digits_no_leading_zero(mv.size as nat);
                    let d = dec_digits(mv.size as nat);
                    assert(s@.subrange(i as int, i + d.len()) =~= d) by {
                        assert(forall|t: int| 0 <= t < d.len() ==> s@[i + t] == meta_text(mv)[t]
                            && meta_text(mv)[t] == d[t]);
                    }
                    assert(s@[i as int] == d[0]);
                }
            }
            return None;
        },
    };
    if p1 >= s.len() || s[p1] != 44 {
        proof {
            assert forall|mv: MetaV|
                mv.wf() && #[trigger] begins(s@, i as int, meta_text(mv)) implies false by {
                lemma_meta_witness(s@, i as int, mv);
            }
        }
        return None;
    }
    let hex = parse_hex(s, p1 + 1, 16);
    match hex {
        Some((bytes, p2)) => {
            let m = FileMeta { size, hash: Digest { bytes } };
            proof {
                assert forall|mv: MetaV|
                    mv.wf() && #[trigger] begins(s@, i as int, meta_text(mv)) implies m@ == mv
                    && p2 == i + meta_text(mv).len() by {
                    lemma_meta_witness(s@, i as int, mv);
                    assert forall|t: int| 0 <= t < 32 implies #[trigger] s@[p1 + 1 + t] == hex_of(
                        mv.hash,
                    )[t] by {}
                    lemma_hex_round_trip(mv.hash, m.hash@, s@, p1 + 1 as int);
                }
                crate::codec::lemma_hex_window_exact(s@, p1 + 1 as int, m.hash@);
                let d = dec_digits(m.size as nat);
                let mt = meta_text(m@);
                assert(d.len() == p1 - i);
                assert forall|w: int| 0 <= w < p2 - i implies s@.subrange(i as int, p2 as int)[w]
                    == mt[w] by {
                    if w < p1 - i {
                        assert(s@.subrange(i as int, p1 as int)[w] == d[w]);
                        assert(s@[i + w] == d[w]);
                        assert(mt[w] == d[w]);
                    } else if w == p1 - i {
                        assert(s@[p1 as int] == 44);
                        assert(mt[w] == 44);
                    } else {
                        let t = w - (p1 - i) - 1;
                        assert(s@.subrange(p1 + 1 as int, p1 + 33 as int)[t] == hex_of(
                            m.hash@,
                        )[t]);
                        assert(s@[p1 + 1 + t] == hex_of(m.hash@)[t]);
                        assert(mt[w] == hex_of(m.hash@)[t]);
                    }
                }
                assert(s@.subrange(i as int, p2 as int) =~= mt);
            }
            Some((m, p2))
        },
        None => {
            proof {
                assert forall|mv: MetaV|
                    mv.wf() && #[trigger] begins(s@, i as int, meta_text(mv)) implies false by {
                    lemma_meta_witness(s@, i as int, mv);
                }
            }
            None
        },
    }
}


/// What the text at `i` looks like when it holds the version line of `vv`.
proof fn lemma_version_witness(s: Seq<u8>, i: int, vv: VersionV)
    requires
        vv.wf(),
        begins(s, i, version_line_text(vv)),
    ensures
        ({
            let d = dec_digits(vv.number as nat);
            let base = i + d.len() + 34;
            &&& dec_run_end(s, i) == i + d.len()
            &&& i < dec_run_end(s, i)
            &&& dec_val(s.subrange(i, i + d.len())) == vv.number as nat
            &&& i + d.len() < s.len()
            &&& s[i + d.len()] == 44
            &&& begins(s, i + d.len() + 1, hex_of(vv.hash))
            &&& (forall|k: int|
                i + d.len() + 1 <= k < i + d.len() + 33 ==> is_hex_digit(#[trigger] s[k]))
            &&& s[i + d.len() + 33] == 44
            &&& begins(s, base, vv.name)
            &&& (forall|t: int| base <= t < base + vv.name.len() ==> s[t] != 10 && s[t] != 13)
            &&& base + vv.name.len() < s.len()
            &&& s[base + vv.name.len()] == 10
            &&& version_line_text(vv).len() == d.len() + 34 + vv.name.len() + 1
        }),
{
    let d = dec_digits(vv.number as nat);
    let t = version_line_text(vv);
    lemma_dec_digits_wf(vv.number as nat);
    assert forall|j: int| 0 <= j < d.len() implies is_dec_digit(#[trigger] s[i + j]) by {
        assert(s[i + j] == t[j]);
        assert(t[j] == d[j]);
    }
    assert(s[i + d.len()] == t[d.len() as int]);
    assert(t[d.len() as int] == 44);
    lemma_dec_run_end_is(s, i, d.len() as int);
    assert forall|j: int| 0 <= j < d.len() implies s.subrange(i, i + d.len())[j] == d[j] by {
        assert(s[i + j] == t[j]);
        assert(t[j] == d[j]);
    }
    assert(s.subrange(i, i + d.len()) =~= d);
    lemma_dec_round_trip(vv.number as nat);
    lemma_begins_part(s, i, t, d.len() + 1 as int, hex_of(vv.hash));
    lemma_hex_of_digits(vv.hash);
    assert forall|k: int|
        i + d.len() + 1 <= k < i + d.len() + 33 implies is_hex_digit(#[trigger] s[k]) by {
        let j = k - (i + d.len() + 1);
        assert(s[i + d.len() + 1 + j] == hex_of(vv.hash)[j]);
    }
    assert(s[i + d.len() + 33] == t[d.len() + 33 as int]);
    assert(t[d.len() + 33 as int] == 44);
    lemma_begins_part(s, i, t, d.len() + 34 as int, vv.name);
    let base = i + d.len() + 34;
    assert forall|q: int| base <= q < base + vv.name.len() implies s[q] != 10 && s[q] != 13 by {
        let j = q - base;
        assert(s[base + j] == vv.name[j]);
    }
    assert(s[base + vv.name.len()] == t[d.len() + 34 + vv.name.len() as int]);
    assert(t[d.len() + 34 + vv.name.len() as int] == 10);
}

/// Parse the version line `number,hash,name` ending in a newline.
fn parse_version_line(s: &[u8], i: usize) -> (r: Option<(VersionInfo, usize)>)
    requires
        i <= s@.len(),
    ensures
        (r matches Some(x) ==> x.0.wf() && i < x.1 <= s@.len() && s@.subrange(
            i as int,
            x.1 as int,
        ) =~= version_line_text(x.0@)),
        forall|vv: VersionV|
            vv.wf() && #[trigger] begins(s@, i as int, version_line_text(vv)) ==> (r matches Some(
                x,
            ) && x.0@ == vv && x.1 == i + version_line_text(vv).len()),
{
    let num = parse_dec_canonical(s, i);
    let (number, p1) = match num {
        Some(x) => x,
        None => {
            proof {
                assert forall|vv: VersionV|
                    vv.wf() && #[trigger] begins(s@, i as int, version_line_text(vv)) implies false by {
                    lemma_version_witness(s@, i as int, vv);
                    crate::codec::lemma_dec_digits_no_leading_zero(vv.number as nat);
                    let d = dec_digits(vv.number as nat);
                    assert(s@.subrange(i as int, i + d.len()) =~= d) by {
                        assert(forall|t: int|
                            0 <= t < d.len() ==> s@[i + t] == version_line_text(vv)[t]
                                && version_line_text(vv)[t] == d[t]);
                    }
                    assert(s@[i as int] == d[0]);
                }
            }
            return None;
        },
    };
    if p1 >= s.len() || s[p1] != 44 {
        proof {
            assert forall|vv: VersionV|
                vv.wf() && #[trigger] begins(s@, i as int, version_line_text(vv)) implies false by {
                lemma_version_witness(s@, i as int, vv);
            }
        }
        return None;
    }
    let hex = parse_hex(s, p1 + 1, 16);
    let (hash_bytes, p2) = match hex {
        Some(x) => x,
        None => {
            proof {
                assert forall|vv: VersionV|
                    vv.wf() && #[trigger] begins(s@, i as int, version_line_text(vv)) implies false by {
                    lemma_version_witness(s@, i as int, vv);
                }
            }
            return None;
        },
    };
    if p2 >= s.len() || s[p2] != 44 {
        proof {
            assert forall|vv: VersionV|
                vv.wf() && #[trigger] begins(s@, i as int, version_line_text(vv)) implies false by {
                lemma_version_witness(s@, i as int, vv);
            }
        }
        return None;
    }
    let nl = find_newline(s, p2 + 1);
    match nl {
        Some(e) => {
            let name = vstd::slice::slice_to_vec(&s[p2 + 1..e]);
            let v = VersionInfo { number, hash: Digest { bytes: hash_bytes }, name };
            proof {
                crate::codec::lemma_hex_window_exact(s@, p1 + 1 as int, v.hash@);
                let d = dec_digits(v.number as nat);
                let vt = version_line_text(v@);
                assert(d.len() == p1 - i);
                assert(v.name@ == s@.subrange(p2 + 1 as int, e as int));
                assert forall|w: int| 0 <= w < (e + 1) - i implies s@.subrange(
                    i as int,
                    e + 1 as int,
                )[w] == vt[w] by {
                    if w < p1 - i {
                        assert(s@.subrange(i as int, p1 as int)[w] == d[w]);
                        assert(s@[i + w] == d[w]);
                        assert(vt[w] == d[w]);
                    } else if w == p1 - i {
                        assert(s@[p1 as int] == 44);
                        assert(vt[w] == 44);
                    } else if w < p1 - i + 33 {
                        let t = w - (p1 - i) - 1;
                        assert(s@.subrange(p1 + 1 as int, p1 + 33 as int)[t] == hex_of(
                            v.hash@,
                        )[t]);
                        assert(s@[p1 + 1 + t] == hex_of(v.hash@)[t]);
                        assert(vt[w] == hex_of(v.hash@)[t]);
                    } else if w == p1 - i + 33 {
                        assert(s@[p2 as int] == 44);
                        assert(vt[w] == 44);
                    } else if w < (e - i) {
                        let t = w - (p1 - i) - 34;
                        assert(v.name@[t] == s@[p2 + 1 + t]);
                        assert(vt[w] == v.name@[t]);
                    } else {
                        assert(w == e - i);
                        assert(s@[e as int] == 10);
                        assert(vt[w] == 10);
                    }
                }
                assert(s@.subrange(i as int, e + 1 as int) =~= vt);
                assert forall|vv: VersionV|
                    vv.wf() && #[trigger] begins(s@, i as int, version_line_text(vv)) implies v@
                    == vv && e + 1 == i + version_line_text(vv).len() by {
                    lemma_version_witness(s@, i as int, vv);
                    let d = dec_digits(vv.number as nat);
                    let base = i + d.len() + 34;
                    assert forall|t: int| 0 <= t < 32 implies #[trigger] s@[p1 + 1 + t] == hex_of(
                        vv.hash,
                    )[t] by {}
                    lemma_hex_round_trip(vv.hash, v.hash@, s@, p1 + 1 as int);
                    assert(p2 + 1 == base);
                    assert(e == base + vv.name.len()) by {
                        if e < base + vv.name.len() {
                            assert(s@[e as int] == vv.name[e - base]);
                        }
                        if e > base + vv.name.len() {
                            assert(s@[base + vv.name.len()] == 10);
                        }
                    }
                    assert forall|t: int|
                        0 <= t < vv.name.len() implies v.name@[t] == vv.name[t] by {
                        assert(s@[base + t] == vv.name[t]);
                    }
                    assert(v.name@ =~= vv.name);
                }
            }
            Some((v, e + 1))
        },
        None => {
            proof {
                assert forall|vv: VersionV|
                    vv.wf() && #[trigger] begins(s@, i as int, version_line_text(vv)) implies false by {
                    lemma_version_witness(s@, i as int, vv);
                    let d = dec_digits(vv.number as nat);
                    let base = i + d.len() + 34;
                    assert(s@[base + vv.name.len()] == 10);
                }
            }
            None
        },
    }
}

/// What the text at `i` looks like when it holds the entry line of
/// `(pv, ev)`.
proof fn lemma_entry_witness(s: Seq<u8>, i: int, pv: Seq<u8>, ev: EntryV)
    requires
        path_ok(pv),
        ev.wf(),
        begins(s, i, entry_line_text(pv, ev)),
    ensures
        ({
            let c = i + pv.len();
            let p2 = c + 1 + meta_text(ev.raw).len();
            let p3 = p2 + 1 + meta_text(ev.compressed).len();
            &&& i + pv.len() < s.len()
            &&& (forall|t: int| i <= t < c ==> s[t] != 44 && s[t] != 10 && s[t] != 13)
            &&& begins(s, i, pv)
            &&& s[c] == 44
            &&& begins(s, c + 1, meta_text(ev.raw))
            &&& p2 < s.len()
            &&& s[p2] == 44
            &&& begins(s, p2 + 1, meta_text(ev.compressed))
            &&& p3 < s.len()
            &&& s[p3] == 44
            &&& begins(s, p3 + 1, hex_of(ev.checksum))
            &&& (forall|k: int| p3 + 1 <= k < p3 + 33 ==> is_hex_digit(#[trigger] s[k]))
            &&& p3 + 33 < s.len()
            &&& s[p3 + 33] == 10
            &&& entry_line_text(pv, ev).len() == pv.len() + 1 + meta_text(ev.raw).len() + 1
                + meta_text(ev.compressed).len() + 34
        }),
{
    let t = entry_line_text(pv, ev);
    let c = i + pv.len();
    let mr = meta_text(ev.raw);
    let mc = meta_text(ev.compressed);
    let p2 = c + 1 + mr.len();
    let p3 = p2 + 1 + mc.len();
    lemma_begins_part(s, i, t, 0, pv);
    assert forall|q: int| i <= q < c implies s[q] != 44 && s[q] != 10 && s[q] != 13 by {
        let j = q - i;
        assert(s[i + j] == pv[j]);
    }
    assert(s[c] == t[pv.len() as int]);
    assert(t[pv.len() as int] == 44);
    lemma_begins_part(s, i, t, pv.len() + 1 as int, mr);
    assert(s[p2] == t[pv.len() + 1 + mr.len() as int]);
    assert(t[pv.len() + 1 + mr.len() as int] == 44);
    lemma_begins_part(s, i, t, pv.len() + 2 + mr.len() as int, mc);
    assert(s[p3] == t[pv.len() + 2 + mr.len() + mc.len() as int]);
    assert(t[pv.len() + 2 + mr.len() + mc.len() as int] == 44);
    lemma_begins_part(s, i, t, pv.len() + 3 + mr.len() + mc.len() as int, hex_of(ev.checksum));
    lemma_hex_of_digits(ev.checksum);
    assert forall|k: int| p3 + 1 <= k < p3 + 33 implies is_hex_digit(#[trigger] s[k]) by {
        let j = k - (p3 + 1);
        assert(s[p3 + 1 + j] == hex_of(ev.checksum)[j]);
    }
    assert(s[p3 + 33] == t[pv.len() + 35 + mr.len() + mc.len() as int]);
    assert(t[pv.len() + 35 + mr.len() + mc.len() as int] == 10);
}

/// Parse one `[files]` line: `path,rawmeta,compmeta,checksum` and a newline.
fn parse_entry_line(s: &[u8], i: usize) -> (r: Option<(Vec<u8>, FileEntry, usize)>)
    requires
        i <= s@.len(),
    ensures
        (r matches Some(x) ==> x.1.wf() && path_ok(x.0@) && i < x.2 <= s@.len() && s@.subrange(
            i as int,
            x.2 as int,
        ) =~= entry_line_text(x.0@, x.1@)),
        forall|pv: Seq<u8>, ev: EntryV|
            path_ok(pv) && ev.wf() && #[trigger] begins(s@, i as int, entry_line_text(pv, ev))
                ==> (r matches Some(x) && x.0@ == pv && x.1@ == ev && x.2 == i + entry_line_text(
                pv,
                ev,
            ).len()),
{
    let n_total = s.len();
    let comma = find_comma(s, i);
    let c = match comma {
        Some(c) => c,
        None => {
            proof {
                assert forall|pv: Seq<u8>, ev: EntryV|
                    path_ok(pv) && ev.wf() && #[trigger] begins(
                        s@,
                        i as int,
                        entry_line_text(pv, ev),
                    ) implies false by {
                    lemma_entry_witness(s@, i as int, pv, ev);
                }
            }
            return None;
        },
    };
    let path = vstd::slice::slice_to_vec(&s[i..c]);
    proof {
        assert forall|pv: Seq<u8>, ev: EntryV|
            path_ok(pv) && ev.wf() && #[trigger] begins(
                s@,
                i as int,
                entry_line_text(pv, ev),
            ) implies c == i + pv.len() && path@ == pv && begins(
            s@,
            c + 1 as int,
            meta_text(ev.raw),
        ) by {
            lemma_entry_witness(s@, i as int, pv, ev);
            assert(c == i + pv.len()) by {
                if c < i + pv.len() {
                    assert(s@[c as int] == pv[c - i]);
                }
                if c > i + pv.len() {
                    assert(s@[i + pv.len()] == 44);
                }
            }
            assert forall|t: int| 0 <= t < pv.len() implies path@[t] == pv[t] by {
                assert(s@[i + t] == pv[t]);
            }
            assert(path@ =~= pv);
        }
    }
    let m1 = parse_meta(s, c + 1);
    let (raw, p2) = match m1 {
        Some(x) => x,
        None => {
            return None;
        },
    };
    if p2 >= s.len() || s[p2] != 44 {
        proof {
            assert forall|pv: Seq<u8>, ev: EntryV|
                path_ok(pv) && ev.wf() && #[trigger] begins(
                    s@,
                    i as int,
                    entry_line_text(pv, ev),
                ) implies false by {
                lemma_entry_witness(s@, i as int, pv, ev);
            }
        }
        return None;
    }
    let m2 = parse_meta(s, p2 + 1);
    let (compressed, p3) = match m2 {
        Some(x) => x,
        None => {
            proof {
                assert forall|pv: Seq<u8>, ev: EntryV|
                    path_ok(pv) && ev.wf() && #[trigger] begins(
                        s@,
                        i as int,
                        entry_line_text(pv, ev),
                    ) implies false by {
                    lemma_entry_witness(s@, i as int, pv, ev);
                }
            }
            return None;
        },
    };
    if p3 >= s.len() || s[p3] != 44 {
        proof {
            assert forall|pv: Seq<u8>, ev: EntryV|
                path_ok(pv) && ev.wf() && #[trigger] begins(
                    s@,
                    i as int,
                    entry_line_text(pv, ev),
                ) implies false by {
                lemma_entry_witness(s@, i as int, pv, ev);
            }
        }
        return None;
    }
    let hx = parse_hex(s, p3 + 1, 16);
    let (ck, p4) = match hx {
        Some(x) => x,
        None => {
            proof {
                assert forall|pv: Seq<u8>, ev: EntryV|
                    path_ok(pv) && ev.wf() && #[trigger] begins(
                        s@,
                        i as int,
                        entry_line_text(pv, ev),
                    ) implies false by {
                    lemma_entry_witness(s@, i as int, pv, ev);
                }
            }
            return None;
        },
    };
    if p4 >= s.len() || s[p4] != 10 {
        proof {
            assert forall|pv: Seq<u8>, ev: EntryV|
                path_ok(pv) && ev.wf() && #[trigger] begins(
                    s@,
                    i as int,
                    entry_line_text(pv, ev),
                ) implies false by {
                lemma_entry_witness(s@, i as int, pv, ev);
            }
        }
        return None;
    }
    let e = FileEntry { raw, compressed, checksum: Digest { bytes: ck } };
    proof {
        crate::codec::lemma_hex_window_exact(s@, p3 + 1 as int, e.checksum@);
        let lt = entry_line_text(path@, e@);
        let m1 = meta_text(e.raw@);
        let m2 = meta_text(e.compressed@);
        assert(m1.len() == p2 - (c + 1));
        assert(m2.len() == p3 - (p2 + 1));
        assert(path@ == s@.subrange(i as int, c as int));
        assert forall|w: int| 0 <= w < (p4 + 1) - i implies s@.subrange(
            i as int,
            p4 + 1 as int,
        )[w] == lt[w] by {
            let plen = c - i;
            if w < plen {
                assert(path@[w] == s@[i + w]);
                assert(lt[w] == path@[w]);
            } else if w == plen {
                assert(s@[c as int] == 44);
                assert(lt[w] == 44);
            } else if w < plen + 1 + m1.len() {
                let t = w - plen - 1;
                assert(s@.subrange(c + 1 as int, p2 as int)[t] == m1[t]);
                assert(s@[c + 1 + t] == m1[t]);
                assert(lt[w] == m1[t]);
            } else if w == plen + 1 + m1.len() {
                assert(s@[p2 as int] == 44);
                assert(lt[w] == 44);
            } else if w < plen + 2 + m1.len() + m2.len() {
                let t = w - plen - 2 - m1.len();
                assert(s@.subrange(p2 + 1 as int, p3 as int)[t] == m2[t]);
                assert(s@[p2 + 1 + t] == m2[t]);
                assert(lt[w] == m2[t]);
            } else if w == plen + 2 + m1.len() + m2.len() {
                assert(s@[p3 as int] == 44);
                assert(lt[w] == 44);
            } else if w < plen + 3 + m1.len() + m2.len() + 32 {
                let t = w - plen - 3 - m1.len() - m2.len();
                assert(s@.subrange(p3 + 1 as int, p3 + 33 as int)[t] == hex_of(e.checksum@)[t]);
                assert(s@[p3 + 1 + t] == hex_of(e.checksum@)[t]);
                assert(lt[w] == hex_of(e.checksum@)[t]);
            } else {
                assert(w == (p4 - i));
                assert(s@[p4 as int] == 10);
                assert(lt[w] == 10);
            }
        }
        assert(s@.subrange(i as int, p4 + 1 as int) =~= lt);
        assert forall|pv: Seq<u8>, ev: EntryV|
            path_ok(pv) && ev.wf() && #[trigger] begins(
                s@,
                i as int,
                entry_line_text(pv, ev),
            ) implies path@ == pv && e@ == ev && p4 + 1 == i + entry_line_text(pv, ev).len() by {
            lemma_entry_witness(s@, i as int, pv, ev);
            assert forall|t: int| 0 <= t < 32 implies #[trigger] s@[p3 + 1 + t] == hex_of(
                ev.checksum,
            )[t] by {}
            lemma_hex_round_trip(ev.checksum, e.checksum@, s@, p3 + 1 as int);
        }
    }
    Some((path, e, p4 + 1))
}


/// Whether `"[version]\n"` stands at `i`.
fn expect_version_header(s: &[u8], i: usize) -> (r: bool)
    requires
        i <= s@.len(),
    ensures
        r == begins(s@, i as int, version_header()),
{
    let n = s.len();
    if n - i < 10 {
        return false;
    }
    let ok = s[i] == 91 && s[i + 1] == 118 && s[i + 2] == 101 && s[i + 3] == 114 && s[i + 4]
        == 115 && s[i + 5] == 105 && s[i + 6] == 111 && s[i + 7] == 110 && s[i + 8] == 93 && s[i
        + 9] == 10;
    proof {
        let h = version_header();
        if ok {
            assert forall|j: int| 0 <= j < h.len() implies s@[i + j] == h[j] by {
                if j == 0 {
                } else if j == 1 {
                } else if j == 2 {
                } else if j == 3 {
                } else if j == 4 {
                } else if j == 5 {
                } else if j == 6 {
                } else if j == 7 {
                } else if j == 8 {
                } else {
                    assert(j == 9);
                }
            }
        } else {
            if begins(s@, i as int, h) {
                assert(s@[i as int + 0] == h[0]);
                assert(s@[i as int + 1] == h[1]);
                assert(s@[i as int + 2] == h[2]);
                assert(s@[i as int + 3] == h[3]);
                assert(s@[i as int + 4] == h[4]);
                assert(s@[i as int + 5] == h[5]);
                assert(s@[i as int + 6] == h[6]);
                assert(s@[i as int + 7] == h[7]);
                assert(s@[i as int + 8] == h[8]);
                assert(s@[i as int + 9] == h[9]);
            }
        }
    }
    ok
}

/// Whether `"[files]\n"` stands at `i`.
fn expect_files_header(s: &[u8], i: usize) -> (r: bool)
    requires
        i <= s@.len(),
    ensures
        r == begins(s@, i as int, files_header()),
{
    let n = s.len();
    if n - i < 8 {
        return false;
    }
    let ok = s[i] == 91 && s[i + 1] == 102 && s[i + 2] == 105 && s[i + 3] == 108 && s[i + 4]
        == 101 && s[i + 5] == 115 && s[i + 6] == 93 && s[i + 7] == 10;
    proof {
        let h = files_header();
        if ok {
            assert forall|j: int| 0 <= j < h.len() implies s@[i + j] == h[j] by {
                if j == 0 {
                } else if j == 1 {
                } else if j == 2 {
                } else if j == 3 {
                } else if j == 4 {
                } else if j == 5 {
                } else if j == 6 {
                } else {
                    assert(j == 7);
                }
            }
        } else {
            if begins(s@, i as int, h) {
                assert(s@[i as int + 0] == h[0]);
                assert(s@[i as int + 1] == h[1]);
                assert(s@[i as int + 2] == h[2]);
                assert(s@[i as int + 3] == h[3]);
                assert(s@[i as int + 4] == h[4]);
                assert(s@[i as int + 5] == h[5]);
                assert(s@[i as int + 6] == h[6]);
                assert(s@[i as int + 7] == h[7]);
            }
        }
    }
    ok
}

/// The text is exactly the serialized form of `(vv, fs)`.
pub open spec fn canonical(s: Seq<u8>, vv: VersionV, fs: Seq<PathEntryV>) -> bool {
    vv.wf() && entries_ok(fs) && s == manifest_text(vv, fs)
}

/// Every entry line is at least one byte long.
proof fn lemma_entries_text_len(fs: Seq<PathEntryV>)
    ensures
        entries_text(fs).len() >= fs.len(),
    decreases fs.len(),
{
    if fs.len() > 0 {
        lemma_entries_text_len(fs.drop_last());
    }
}

/// Where the `k`-th entry line stands in a canonical text.
proof fn lemma_canonical_entry_at(s: Seq<u8>, vv: VersionV, fs: Seq<PathEntryV>, k: int)
    requires
        canonical(s, vv, fs),
        0 <= k < fs.len(),
    ensures
        begins(
            s,
            manifest_text(vv, fs.subrange(0, k)).len() as int,
            entry_line_text(fs[k].path, fs[k].entry),
        ),
        manifest_text(vv, fs.subrange(0, k + 1)).len() == manifest_text(
            vv,
            fs.subrange(0, k),
        ).len() + entry_line_text(fs[k].path, fs[k].entry).len(),
        manifest_text(vv, fs.subrange(0, k)).len() < s.len(),
{
    let pre = fs.subrange(0, k);
    let line = entry_line_text(fs[k].path, fs[k].entry);
    let rest = fs.subrange(k + 1, fs.len() as int);
    assert(fs =~= pre + seq![fs[k]] + rest);
    lemma_entries_text_concat(pre + seq![fs[k]], rest);
    lemma_entries_text_concat(pre, seq![fs[k]]);
    assert(entries_text(seq![fs[k]]) == entries_text(seq![fs[k]].drop_last()) + line);
    assert(seq![fs[k]].drop_last() =~= Seq::<PathEntryV>::empty());
    assert(entries_text(Seq::<PathEntryV>::empty()) =~= Seq::<u8>::empty());
    assert(entries_text(seq![fs[k]]) =~= line);
    assert(entries_text(fs) =~= entries_text(pre) + line + entries_text(rest));
    let base = manifest_text(vv, pre).len() as int;
    assert(s =~= manifest_text(vv, pre) + line + entries_text(rest));
    assert forall|j: int| 0 <= j < line.len() implies s[base + j] == line[j] by {
        assert(s[base + j] == (manifest_text(vv, pre) + line + entries_text(rest))[base + j]);
    }
    assert(fs.subrange(0, k + 1) =~= pre + seq![fs[k]]);
    assert(manifest_text(vv, pre + seq![fs[k]]).len() == manifest_text(vv, pre).len()
        + line.len());
    lemma_entries_text_len(rest);
    assert(line.len() >= 1);
}

/// A canonical prefix never overruns the text, and fills it exactly when
/// every entry is consumed.
proof fn lemma_canonical_prefix_len(s: Seq<u8>, vv: VersionV, fs: Seq<PathEntryV>, k: int)
    requires
        canonical(s, vv, fs),
        0 <= k <= fs.len(),
    ensures
        manifest_text(vv, fs.subrange(0, k)).len() <= s.len(),
        (manifest_text(vv, fs.subrange(0, k)).len() == s.len()) == (k == fs.len()),
    decreases fs.len() - k,
{
    if k == fs.len() {
        assert(fs.subrange(0, k) =~= fs);
    } else {
        lemma_canonical_entry_at(s, vv, fs, k);
        lemma_canonical_prefix_len(s, vv, fs, k + 1);
    }
}

/// Parse a manifest from its persisted text.
///
/// Accepts exactly the serializer's output: digests in lowercase hex,
/// numbers without redundant leading zeros, entries in sorted order. A
/// `Some` result names the manifest whose serialized text is the input,
/// and on the text of any well-formed manifest that manifest is returned.
pub fn parse_manifest(s: &[u8]) -> (r: Option<Manifest>)
    ensures
        (r matches Some(m) ==> m.wf() && s@ == manifest_text(m.version@, m.files@)),
        forall|vv: VersionV, fs: Seq<PathEntryV>|
            #[trigger] canonical(s@, vv, fs) ==> (r matches Some(m) && m.version@ == vv
                && m.files@ == fs),
{
    if !expect_version_header(s, 0) {
        proof {
            assert forall|vv: VersionV, fs: Seq<PathEntryV>|
                #[trigger] canonical(s@, vv, fs) implies false by {
                lemma_begins_part(s@, 0, manifest_text(vv, fs), 0, version_header());
            }
        }
        return None;
    }
    let vl = parse_version_line(s, 10);
    let (version, p1) = match vl {
        Some(x) => x,
        None => {
            proof {
                assert forall|vv: VersionV, fs: Seq<PathEntryV>|
                    #[trigger] canonical(s@, vv, fs) implies false by {
                    lemma_begins_part(s@, 0, manifest_text(vv, fs), 10, version_line_text(vv));
                }
            }
            return None;
        },
    };
    proof {
        assert forall|vv: VersionV, fs: Seq<PathEntryV>|
            #[trigger] canonical(s@, vv, fs) implies version@ == vv && p1 == 10
            + version_line_text(vv).len() by {
            lemma_begins_part(s@, 0, manifest_text(vv, fs), 10, version_line_text(vv));
        }
    }
    if !expect_files_header(s, p1) {
        proof {
            assert forall|vv: VersionV, fs: Seq<PathEntryV>|
                #[trigger] canonical(s@, vv, fs) implies false by {
                lemma_begins_part(
                    s@,
                    0,
                    manifest_text(vv, fs),
                    10 + version_line_text(vv).len() as int,
                    files_header(),
                );
            }
        }
        return None;
    }
    let n = s.len();
    proof {
        assert(p1 + 8 <= n);
    }
    let mut pos = p1 + 8;
    let mut files = PathMap::new();
    proof {
        assert forall|vv: VersionV, fs: Seq<PathEntryV>|
            #[trigger] canonical(s@, vv, fs) implies files@ == fs.subrange(0, 0) && pos
            == manifest_text(vv, fs.subrange(0, 0)).len() by {
            assert(fs.subrange(0, 0) =~= Seq::<PathEntryV>::empty());
            assert(entries_text(Seq::<PathEntryV>::empty()) =~= Seq::<u8>::empty());
            assert(files@ =~= fs.subrange(0, 0));
        }
        assert(files@ =~= Seq::<PathEntryV>::empty());
        assert(entries_text(files@) =~= Seq::<u8>::empty());
        let mt = manifest_text(version@, files@);
        assert(s@.subrange(10, p1 as int) =~= version_line_text(version@));
        assert(mt.len() == p1 + 8);
        assert forall|w: int| 0 <= w < p1 + 8 implies s@.subrange(0, p1 + 8)[w] == mt[w] by {
            if w < 10 {
                assert(s@[0 + w] == version_header()[w]);
                assert(mt[w] == version_header()[w]);
            } else if w < p1 {
                assert(s@.subrange(10, p1 as int)[w - 10] == version_line_text(version@)[w - 10]);
                assert(s@[w] == version_line_text(version@)[w - 10]);
                assert(mt[w] == version_line_text(version@)[w - 10]);
            } else {
                assert(s@[p1 + (w - p1)] == files_header()[w - p1]);
                assert(mt[w] == files_header()[w - p1]);
            }
        }
        assert(s@.subrange(0, pos as int) =~= manifest_text(version@, files@));
    }
    while pos < n
        invariant
            pos <= n,
            n == s@.len(),
            files.wf(),
            version.wf(),
            forall|t: int| 0 <= t < files@.len() ==> path_ok((#[trigger] files@[t]).path),
            s@.subrange(0, pos as int) == manifest_text(version@, files@),
            forall|vv: VersionV, fs: Seq<PathEntryV>|
                #[trigger] canonical(s@, vv, fs) ==> version@ == vv && exists|k: int|
                    0 <= k <= fs.len() && files@ == fs.subrange(0, k) && pos == manifest_text(
                        vv,
                        fs.subrange(0, k),
                    ).len(),
        decreases n - pos,
    {
        let line = parse_entry_line(s, pos);
        match line {
            Some((path, entry, newpos)) => {
                let ghost oldmap = files;
                let ghost oldfiles = files@;
                let ghost oldpos = pos;
                proof {
                    assert forall|vv: VersionV, fs: Seq<PathEntryV>|
                        #[trigger] canonical(s@, vv, fs) implies exists|k: int|
                        0 <= k < fs.len() && oldfiles == fs.subrange(0, k) && path@ == fs[k].path
                            && entry@ == fs[k].entry && newpos == manifest_text(
                            vv,
                            fs.subrange(0, k + 1),
                        ).len() && (forall|t: int|
                            0 <= t < fs.subrange(0, k).len() ==> lex_lt(
                                (#[trigger] fs.subrange(0, k)[t]).path,
                                fs[k].path,
                            )) by {
                        let k = choose|k: int|
                            0 <= k <= fs.len() && oldfiles == fs.subrange(0, k) && oldpos
                                == manifest_text(vv, fs.subrange(0, k)).len();
                        lemma_canonical_prefix_len(s@, vv, fs, k);
                        assert(k < fs.len());
                        lemma_canonical_entry_at(s@, vv, fs, k);
                        assert(path_ok(fs[k].path) && fs[k].entry.wf());
                        assert(begins(s@, oldpos as int, entry_line_text(fs[k].path, fs[k].entry)));
                        assert forall|t: int|
                            0 <= t < fs.subrange(0, k).len() implies lex_lt(
                            (#[trigger] fs.subrange(0, k)[t]).path,
                            fs[k].path,
                        ) by {
                            assert(fs.subrange(0, k)[t] == fs[t]);
                        }
                    }
                }
                let ghost pathv = path@;
                let ghost entryv = entry@;
                let nf = files.entries.len();
                if nf > 0 {
                    let ord = crate::order::lex_cmp(
                        files.entries[nf - 1].path.as_slice(),
                        path.as_slice(),
                    );
                    match ord {
                        crate::order::Cmp::Lt => {},
                        _ => {
                            // out-of-order or duplicate path: not a manifest
                            // this library wrote
                            proof {
                                assert forall|vv: VersionV, fs: Seq<PathEntryV>|
                                    #[trigger] canonical(s@, vv, fs) implies false by {
                                    let k = choose|k: int|
                                        0 <= k < fs.len() && oldfiles == fs.subrange(0, k)
                                            && path@ == fs[k].path && entry@ == fs[k].entry
                                            && newpos == manifest_text(
                                            vv,
                                            fs.subrange(0, k + 1),
                                        ).len() && (forall|t: int|
                                            0 <= t < fs.subrange(0, k).len() ==> lex_lt(
                                                (#[trigger] fs.subrange(0, k)[t]).path,
                                                fs[k].path,
                                            ));
                                    assert(files@[nf - 1] == fs.subrange(0, k)[nf - 1]);
                                    assert(lex_lt(files@[nf - 1].path, path@));
                                }
                            }
                            return None;
                        },
                    }
                }
                proof {
                    assert forall|t: int|
                        0 <= t < files@.len() implies lex_lt(
                        (#[trigger] files@[t]).path,
                        pathv,
                    ) by {
                        assert(lex_lt(files@[nf - 1].path, pathv));
                        if t < files@.len() - 1 {
                            assert(lex_lt(files@[t].path, files@[nf - 1].path));
                            crate::order::lemma_lex_trans(
                                files@[t].path,
                                files@[nf - 1].path,
                                pathv,
                            );
                        }
                    }
                }
                files.insert(path, entry);
                pos = newpos;
                proof {
                    assert(files@ == oldfiles.push(PathEntryV { path: pathv, entry: entryv }));
                    assert(s@.subrange(oldpos as int, newpos as int) =~= entry_line_text(
                        pathv,
                        entryv,
                    ));
                    lemma_entries_text_push(oldfiles, PathEntryV { path: pathv, entry: entryv });
                    assert(manifest_text(version@, files@) =~= manifest_text(version@, oldfiles)
                        + entry_line_text(pathv, entryv));
                    assert(s@.subrange(0, pos as int) =~= s@.subrange(0, oldpos as int)
                        + s@.subrange(oldpos as int, pos as int));
                    assert(s@.subrange(0, pos as int) =~= manifest_text(version@, files@));
                    assert forall|t: int|
                        0 <= t < files@.len() implies path_ok((#[trigger] files@[t]).path) by {
                        let q = files@[t].path;
                        assert(files.contains_key(q));
                        assert(files.as_map().dom().contains(q));
                        if q != pathv {
                            assert(oldmap.as_map().dom().contains(q));
                            assert(oldmap.contains_key(q));
                            let t0 = choose|t0: int|
                                0 <= t0 < oldmap@.len() && oldmap@[t0].path == q;
                            assert(path_ok(oldmap@[t0].path));
                        } else {
                            assert(path_ok(pathv));
                        }
                    }
                    assert forall|vv: VersionV, fs: Seq<PathEntryV>|
                        #[trigger] canonical(s@, vv, fs) implies exists|k2: int|
                        0 <= k2 <= fs.len() && files@ == fs.subrange(0, k2) && pos
                            == manifest_text(vv, fs.subrange(0, k2)).len() by {
                        let k = choose|k: int|
                            0 <= k < fs.len() && oldfiles == fs.subrange(0, k) && path@
                                == fs[k].path && entry@ == fs[k].entry && newpos == manifest_text(
                                vv,
                                fs.subrange(0, k + 1),
                            ).len() && (forall|t: int|
                                0 <= t < fs.subrange(0, k).len() ==> lex_lt(
                                    (#[trigger] fs.subrange(0, k)[t]).path,
                                    fs[k].path,
                                ));
                        assert(files@ == oldfiles.push(PathEntryV { path: path@, entry: entry@ }));
                        assert(files@ =~= fs.subrange(0, k + 1));
                        assert(0 <= k + 1 <= fs.len() && files@ == fs.subrange(0, k + 1) && pos
                            == manifest_text(vv, fs.subrange(0, k + 1)).len());
                    }
                }
            },
            None => {
                proof {
                    assert forall|vv: VersionV, fs: Seq<PathEntryV>|
                        #[trigger] canonical(s@, vv, fs) implies false by {
                        let k = choose|k: int|
                            0 <= k <= fs.len() && files@ == fs.subrange(0, k) && pos
                                == manifest_text(vv, fs.subrange(0, k)).len();
                        lemma_canonical_prefix_len(s@, vv, fs, k);
                        assert(k < fs.len());
                        lemma_canonical_entry_at(s@, vv, fs, k);
                        assert(path_ok(fs[k].path) && fs[k].entry.wf());
                        assert(begins(s@, pos as int, entry_line_text(fs[k].path, fs[k].entry)));
                    }
                }
                return None;
            },
        }
    }
    let m = Manifest { version, files };
    proof {
        assert(pos == n);
        assert(s@.subrange(0, n as int) =~= s@);
        assert(s@ == manifest_text(m.version@, m.files@));
        assert forall|vv: VersionV, fs: Seq<PathEntryV>|
            #[trigger] canonical(s@, vv, fs) implies m.version@ == vv && m.files@ == fs by {
            let k = choose|k: int|
                0 <= k <= fs.len() && files@ == fs.subrange(0, k) && pos == manifest_text(
                    vv,
                    fs.subrange(0, k),
                ).len();
            lemma_canonical_prefix_len(s@, vv, fs, k);
            assert(k == fs.len());
            assert(fs.subrange(0, k) =~= fs);
        }
    }
    Some(m)
}

/// Round trip: parsing a serialized manifest yields the same version line
/// and the same mapping — same paths, same metadata, same checksums.
pub fn manifest_round_trip(m: &Manifest) -> (r: Option<Manifest>)
    requires
        m.wf(),
    ensures
        r matches Some(m2) && m2.version@ == m.version@ && m2.files@ == m.files@,
{
    let text = serialize_manifest(m);
    let r = parse_manifest(text.as_slice());
    proof {
        assert(canonical(text@, m.version@, m.files@));
    }
    r
}

} // verus!
