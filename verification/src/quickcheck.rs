//! The quickcheck index: skip digesting when the modification time is
//! unchanged.
//!
//! Persisted as text, one record per line: `path,mtime,size,hash`. The
//! `mtime` field is a decimal number of nanoseconds since the epoch, or
//! empty when no time was known; a line whose `mtime` does not parse as a
//! number is silently dropped on load. A record is found by the 32-bit
//! fingerprint of its path; fingerprints may collide, so the path itself is
//! kept in the record.

use vstd::prelude::*;

use crate::codec::{dec_digits, dec_val, dec_run_end, is_dec_digit, is_hex_digit, hex_of,
    push_dec_u64, push_dec_u32, push_hex, parse_dec_u64, parse_dec_u32, parse_hex,
    lemma_dec_digits_wf, lemma_dec_round_trip, lemma_hex_of_digits, lemma_hex_round_trip};
use crate::manifest::{path_ok, begins, lemma_begins_part, lemma_dec_run_end_is, find_comma};
use crate::hashes::crc_of;
use crate::meta::{Digest, FileMeta, MetaV};

verus! {

/// One quickcheck record: a path, its last known modification time, and the
/// raw content metadata observed then.
pub struct QcRecord {
    pub path: Vec<u8>,
    pub mtime: Option<u64>,
    pub meta: FileMeta,
}

/// Mathematical value of a [`QcRecord`].
#[verifier::ext_equal]
pub ghost struct QcRecordV {
    pub path: Seq<u8>,
    pub mtime: Option<u64>,
    pub meta: MetaV,
}

impl QcRecordV {
    pub open spec fn wf(&self) -> bool {
        self.meta.wf() && path_ok(self.path)
    }
}

impl View for QcRecord {
    type V = QcRecordV;

    open spec fn view(&self) -> QcRecordV {
        QcRecordV { path: self.path@, mtime: self.mtime, meta: self.meta@ }
    }
}

impl QcRecord {
    pub open spec fn wf(&self) -> bool {
        self@.wf()
    }
}

/// The views of a record list.
pub open spec fn qc_views(s: Seq<QcRecord>) -> Seq<QcRecordV> {
    s.map_values(|r: QcRecord| r@)
}

/// The `mtime` field: decimal nanoseconds, or empty when unknown.
pub open spec fn mtime_text(m: Option<u64>) -> Seq<u8> {
    match m {
        Some(t) => dec_digits(t as nat),
        None => Seq::empty(),
    }
}

/// One persisted record line, newline included.
pub open spec fn qc_line_text(r: QcRecordV) -> Seq<u8> {
    r.path + seq![44u8] + mtime_text(r.mtime) + seq![44u8] + dec_digits(r.meta.size as nat)
        + seq![44u8] + hex_of(r.meta.hash) + seq![10u8]
}

/// The whole persisted file.
pub open spec fn qc_text(rs: Seq<QcRecordV>) -> Seq<u8>
    decreases rs.len(),
{
    if rs.len() == 0 {
        Seq::empty()
    } else {
        qc_text(rs.drop_last()) + qc_line_text(rs.last())
    }
}

/// The records that survive a load: those with a known modification time.
pub open spec fn kept(rs: Seq<QcRecordV>) -> Seq<QcRecordV>
    decreases rs.len(),
{
    if rs.len() == 0 {
        Seq::empty()
    } else if rs.last().mtime is Some {
        kept(rs.drop_last()).push(rs.last())
    } else {
        kept(rs.drop_last())
    }
}

/// Well-formed record lists.
pub open spec fn qc_records_ok(rs: Seq<QcRecordV>) -> bool {
    forall|i: int| 0 <= i < rs.len() ==> (#[trigger] rs[i]).wf()
}

/// Append one record line to `out`.
pub fn push_qc_line(out: &mut Vec<u8>, r: &QcRecord)
    ensures
        final(out)@ == old(out)@ + qc_line_text(r@),
{
    out.extend_from_slice(r.path.as_slice());
    out.push(44);
    match r.mtime {
        Some(t) => {
            push_dec_u64(out, t);
        },
        None => {},
    }
    out.push(44);
    push_dec_u32(out, r.meta.size);
    out.push(44);
    push_hex(out, r.meta.hash.bytes.as_slice());
    out.push(10);
    assert(out@ =~= old(out)@ + qc_line_text(r@));
}

/// Serialize the whole index, one line per record, in the given order.
pub fn serialize_quickcheck(records: &Vec<QcRecord>) -> (r: Vec<u8>)
    ensures
        r@ == qc_text(qc_views(records@)),
{
    let mut out: Vec<u8> = Vec::new();
    let n = records.len();
    let mut i: usize = 0;
    while i < n
        invariant
            0 <= i <= n,
            n == records@.len(),
            out@ == qc_text(qc_views(records@).subrange(0, i as int)),
        decreases n - i,
    {
        push_qc_line(&mut out, &records[i]);
        proof {
            let vs = qc_views(records@);
            assert(vs.subrange(0, i + 1 as int).drop_last() =~= vs.subrange(0, i as int));
        }
        i = i + 1;
    }
    proof {
        assert(qc_views(records@).subrange(0, n as int) =~= qc_views(records@));
    }
    out
}

/// What the text at `i` looks like when it holds the line of record `rv`.
proof fn lemma_qc_witness(s: Seq<u8>, i: int, rv: QcRecordV)
    requires
        rv.wf(),
        begins(s, i, qc_line_text(rv)),
    ensures
        ({
            let c1 = i + rv.path.len();
            let mt = mtime_text(rv.mtime);
            let c2 = c1 + 1 + mt.len();
            let d = dec_digits(rv.meta.size as nat);
            let c3 = c2 + 1 + d.len();
            &&& c1 < s.len()
            &&& (forall|t: int| i <= t < c1 ==> s[t] != 44 && s[t] != 10 && s[t] != 13)
            &&& begins(s, i, rv.path)
            &&& s[c1] == 44
            &&& (forall|t: int| c1 + 1 <= t < c2 ==> s[t] != 44 && s[t] != 10 && s[t] != 13)
            &&& (rv.mtime is Some ==> dec_run_end(s, c1 + 1) == c2 && dec_val(
                s.subrange(c1 + 1, c2),
            ) == rv.mtime->0 as nat && c1 + 1 < c2)
            &&& (rv.mtime is None ==> c2 == c1 + 1)
            &&& c2 < s.len()
            &&& s[c2] == 44
            &&& dec_run_end(s, c2 + 1) == c3
            &&& c2 + 1 < c3
            &&& dec_val(s.subrange(c2 + 1, c3)) == rv.meta.size as nat
            &&& c3 < s.len()
            &&& s[c3] == 44
            &&& begins(s, c3 + 1, hex_of(rv.meta.hash))
            &&& (forall|k: int| c3 + 1 <= k < c3 + 33 ==> is_hex_digit(#[trigger] s[k]))
            &&& c3 + 33 < s.len()
            &&& s[c3 + 33] == 10
            &&& qc_line_text(rv).len() == rv.path.len() + 1 + mt.len() + 1 + d.len() + 34
        }),
{
    let t = qc_line_text(rv);
    let c1 = i + rv.path.len();
    let mt = mtime_text(rv.mtime);
    let c2 = c1 + 1 + mt.len();
    let d = dec_digits(rv.meta.size as nat);
    let c3 = c2 + 1 + d.len();
    lemma_begins_part(s, i, t, 0, rv.path);
    assert forall|q: int| i <= q < c1 implies s[q] != 44 && s[q] != 10 && s[q] != 13 by {
        let j = q - i;
        assert(s[i + j] == rv.path[j]);
    }
    assert(s[c1] == t[rv.path.len() as int]);
    assert(t[rv.path.len() as int] == 44);
    lemma_begins_part(s, i, t, rv.path.len() + 1 as int, mt);
    match rv.mtime {
        Some(v) => {
            lemma_dec_digits_wf(v as nat);
            assert forall|q: int| c1 + 1 <= q < c2 implies s[q] != 44 && s[q] != 10 && s[q]
                != 13 by {
                let j = q - (c1 + 1);
                assert(s[c1 + 1 + j] == mt[j]);
                assert(is_dec_digit(mt[j]));
            }
            assert forall|j: int| 0 <= j < mt.len() implies is_dec_digit(#[trigger] s[c1 + 1
                + j]) by {
                assert(s[c1 + 1 + j] == mt[j]);
            }
            assert(s[c2] == t[rv.path.len() + 1 + mt.len() as int]);
            assert(t[rv.path.len() + 1 + mt.len() as int] == 44);
            lemma_dec_run_end_is(s, c1 + 1, mt.len() as int);
            assert forall|j: int| 0 <= j < mt.len() implies s.subrange(c1 + 1, c2)[j]
                == mt[j] by {
                assert(s[c1 + 1 + j] == mt[j]);
            }
            assert(s.subrange(c1 + 1, c2) =~= mt);
            lemma_dec_round_trip(v as nat);
        },
        None => {
            assert(s[c2] == t[rv.path.len() + 1 + mt.len() as int]);
            assert(t[rv.path.len() + 1 + mt.len() as int] == 44);
        },
    }
    lemma_dec_digits_wf(rv.meta.size as nat);
    assert forall|j: int| 0 <= j < d.len() implies is_dec_digit(#[trigger] s[c2 + 1 + j]) by {
        assert(s[c2 + 1 + j] == t[rv.path.len() + 2 + mt.len() + j]);
        assert(t[rv.path.len() + 2 + mt.len() + j] == d[j]);
    }
    assert(s[c3] == t[rv.path.len() + 2 + mt.len() + d.len() as int]);
    assert(t[rv.path.len() + 2 + mt.len() + d.len() as int] == 44);
    lemma_dec_run_end_is(s, c2 + 1, d.len() as int);
    assert forall|j: int| 0 <= j < d.len() implies s.subrange(c2 + 1, c3)[j] == d[j] by {
        assert(s[c2 + 1 + j] == t[rv.path.len() + 2 + mt.len() + j]);
        assert(t[rv.path.len() + 2 + mt.len() + j] == d[j]);
    }
    assert(s.subrange(c2 + 1, c3) =~= d);
    lemma_dec_round_trip(rv.meta.size as nat);
    lemma_begins_part(s, i, t, rv.path.len() + 3 + mt.len() + d.len() as int, hex_of(rv.meta.hash));
    lemma_hex_of_digits(rv.meta.hash);
    assert forall|k: int| c3 + 1 <= k < c3 + 33 implies is_hex_digit(#[trigger] s[k]) by {
        let j = k - (c3 + 1);
        assert(s[c3 + 1 + j] == hex_of(rv.meta.hash)[j]);
    }
    assert(s[c3 + 33] == t[rv.path.len() + 3 + mt.len() + d.len() + 32 as int]);
    assert(t[rv.path.len() + 3 + mt.len() + d.len() + 32 as int] == 10);
}

/// Outcome of parsing one record line.
enum QcLine {
    /// A record with a usable modification time.
    Keep(QcRecord, usize),
    /// A line whose `mtime` field is not a number: dropped.
    Drop(usize),
    /// A malformed line: the whole load fails.
    Bad,
}

/// Parse one record line at `i`.
fn parse_qc_line(s: &[u8], i: usize) -> (r: QcLine)
    requires
        i <= s@.len(),
    ensures
        (r matches QcLine::Keep(rec, j) ==> rec.wf() && rec@.mtime is Some && i < j <= s@.len()),
        (r matches QcLine::Drop(j) ==> i < j <= s@.len()),
        forall|rv: QcRecordV|
            rv.wf() && #[trigger] begins(s@, i as int, qc_line_text(rv)) ==> (match r {
                QcLine::Keep(rec, j) => rv.mtime is Some && rec@ == rv && j == i + qc_line_text(
                    rv,
                ).len(),
                QcLine::Drop(j) => rv.mtime is None && j == i + qc_line_text(rv).len(),
                QcLine::Bad => false,
            }),
{
    let n_total = s.len();
    let comma1 = find_comma(s, i);
    let c1 = match comma1 {
        Some(c) => c,
        None => {
            proof {
                assert forall|rv: QcRecordV|
                    rv.wf() && #[trigger] begins(s@, i as int, qc_line_text(rv)) implies false by {
                    lemma_qc_witness(s@, i as int, rv);
                }
            }
            return QcLine::Bad;
        },
    };
    let path = vstd::slice::slice_to_vec(&s[i..c1]);
    proof {
        assert forall|rv: QcRecordV|
            rv.wf() && #[trigger] begins(s@, i as int, qc_line_text(rv)) implies c1 == i
            + rv.path.len() && path@ == rv.path by {
            lemma_qc_witness(s@, i as int, rv);
            assert(c1 == i + rv.path.len()) by {
                if c1 < i + rv.path.len() {
                    assert(s@[c1 as int] == rv.path[c1 - i]);
                }
                if c1 > i + rv.path.len() {
                    assert(s@[i + rv.path.len()] == 44);
                }
            }
            assert forall|t: int| 0 <= t < rv.path.len() implies path@[t] == rv.path[t] by {
                assert(s@[i + t] == rv.path[t]);
            }
            assert(path@ =~= rv.path);
        }
    }
    let comma2 = find_comma(s, c1 + 1);
    let c2 = match comma2 {
        Some(c) => c,
        None => {
            proof {
                assert forall|rv: QcRecordV|
                    rv.wf() && #[trigger] begins(s@, i as int, qc_line_text(rv)) implies false by {
                    lemma_qc_witness(s@, i as int, rv);
                }
            }
            return QcLine::Bad;
        },
    };
    // the mtime field is the bytes between the first and second comma; it
    // must be a full decimal number, else the record is stale and dropped
    let mtime: Option<u64> = if c1 + 1 == c2 {
        None
    } else {
        match parse_dec_u64(s, c1 + 1) {
            Some((v, e)) if e == c2 => Some(v),
            _ => None,
        }
    };
    proof {
        assert forall|rv: QcRecordV|
            rv.wf() && #[trigger] begins(s@, i as int, qc_line_text(rv)) implies c2 == i
            + rv.path.len() + 1 + mtime_text(rv.mtime).len() && mtime == rv.mtime by {
            lemma_qc_witness(s@, i as int, rv);
            let w2 = i + rv.path.len() + 1 + mtime_text(rv.mtime).len();
            assert(c2 == w2) by {
                if c2 < w2 {
                    assert(s@[c2 as int] != 44);
                }
                if c2 > w2 {
                    assert(s@[w2] == 44);
                }
            }
            match rv.mtime {
                Some(v) => {
                    assert(dec_run_end(s@, c1 + 1 as int) == c2);
                    assert(v <= u64::MAX);
                },
                None => {},
            }
        }
    }
    let m1 = parse_dec_u32(s, c2 + 1);
    let (size, p3) = match m1 {
        Some(x) => x,
        None => {
            proof {
                assert forall|rv: QcRecordV|
                    rv.wf() && #[trigger] begins(s@, i as int, qc_line_text(rv)) implies false by {
                    lemma_qc_witness(s@, i as int, rv);
                }
            }
            return QcLine::Bad;
        },
    };
    if p3 >= s.len() || s[p3] != 44 {
        proof {
            assert forall|rv: QcRecordV|
                rv.wf() && #[trigger] begins(s@, i as int, qc_line_text(rv)) implies false by {
                lemma_qc_witness(s@, i as int, rv);
            }
        }
        return QcLine::Bad;
    }
    let hx = parse_hex(s, p3 + 1, 16);
    let (hb, p4) = match hx {
        Some(x) => x,
        None => {
            proof {
                assert forall|rv: QcRecordV|
                    rv.wf() && #[trigger] begins(s@, i as int, qc_line_text(rv)) implies false by {
                    lemma_qc_witness(s@, i as int, rv);
                }
            }
            return QcLine::Bad;
        },
    };
    if p4 >= s.len() || s[p4] != 10 {
        proof {
            assert forall|rv: QcRecordV|
                rv.wf() && #[trigger] begins(s@, i as int, qc_line_text(rv)) implies false by {
                lemma_qc_witness(s@, i as int, rv);
            }
        }
        return QcLine::Bad;
    }
    let rec = QcRecord { path, mtime, meta: FileMeta { size, hash: Digest { bytes: hb } } };
    proof {
        assert forall|rv: QcRecordV|
            rv.wf() && #[trigger] begins(s@, i as int, qc_line_text(rv)) implies rec@.path
            == rv.path && rec@.mtime == rv.mtime && rec@.meta == rv.meta && p4 + 1 == i
            + qc_line_text(rv).len() by {
            lemma_qc_witness(s@, i as int, rv);
            assert forall|t: int| 0 <= t < 32 implies #[trigger] s@[p3 + 1 + t] == hex_of(
                rv.meta.hash,
            )[t] by {}
            lemma_hex_round_trip(rv.meta.hash, rec.meta.hash@, s@, p3 + 1 as int);
        }
    }
    match rec.mtime {
        Some(_) => QcLine::Keep(rec, p4 + 1),
        None => QcLine::Drop(p4 + 1),
    }
}

/// Parse the persisted index. Records whose `mtime` field is not a number
/// are silently dropped; any other malformation fails the whole load.
///
/// Unlike the manifest parser, no text-level soundness is stated: the
/// `mtime` and `size` fields must accept any decimal number — redundant
/// leading zeros included — so a kept record does not pin the bytes of its
/// line; the contract instead pins the loaded records on every file this
/// library writes.
pub fn parse_quickcheck(s: &[u8]) -> (r: Option<Vec<QcRecord>>)
    ensures
        (r matches Some(out) ==> forall|t: int|
            0 <= t < out@.len() ==> (#[trigger] out@[t]).wf() && out@[t]@.mtime is Some),
        forall|rs: Seq<QcRecordV>|
            qc_records_ok(rs) && s@ == #[trigger] qc_text(rs) ==> (r matches Some(out)
                && qc_views(out@) == kept(rs)),
{
    let n = s.len();
    let mut out: Vec<QcRecord> = Vec::new();
    let mut pos: usize = 0;
    proof {
        assert forall|rs: Seq<QcRecordV>|
            qc_records_ok(rs) && s@ == #[trigger] qc_text(rs) implies qc_views(out@) == kept(
            rs.subrange(0, 0),
        ) && 0 == qc_text(rs.subrange(0, 0)).len() by {
            assert(rs.subrange(0, 0) =~= Seq::<QcRecordV>::empty());
            assert(qc_views(out@) =~= kept(rs.subrange(0, 0)));
        }
    }
    while pos < n
        invariant
            pos <= n,
            n == s@.len(),
            forall|t: int|
                0 <= t < out@.len() ==> (#[trigger] out@[t]).wf() && out@[t]@.mtime is Some,
            forall|rs: Seq<QcRecordV>|
                qc_records_ok(rs) && s@ == #[trigger] qc_text(rs) ==> exists|k: int|
                    0 <= k <= rs.len() && qc_views(out@) == kept(rs.subrange(0, k)) && pos
                        == qc_text(rs.subrange(0, k)).len(),
        decreases n - pos,
    {
        let ghost oldout = out@;
        let ghost oldpos = pos;
        let line = parse_qc_line(s, pos);
        proof {
            assert forall|rs: Seq<QcRecordV>|
                qc_records_ok(rs) && s@ == #[trigger] qc_text(rs) implies exists|k: int|
                0 <= k < rs.len() && qc_views(oldout) == kept(rs.subrange(0, k)) && oldpos
                    == qc_text(rs.subrange(0, k)).len() && begins(
                    s@,
                    oldpos as int,
                    qc_line_text(rs[k]),
                ) && qc_text(rs.subrange(0, k + 1)).len() == oldpos + qc_line_text(rs[k]).len()
                    && rs[k].wf() by {
                let k = choose|k: int|
                    0 <= k <= rs.len() && qc_views(oldout) == kept(rs.subrange(0, k)) && oldpos
                        == qc_text(rs.subrange(0, k)).len();
                lemma_qc_prefix_len(s@, rs, k);
                assert(k < rs.len());
                lemma_qc_line_at(s@, rs, k);
                assert(0 <= k < rs.len() && qc_views(oldout) == kept(rs.subrange(0, k)) && oldpos
                    == qc_text(rs.subrange(0, k)).len() && begins(
                    s@,
                    oldpos as int,
                    qc_line_text(rs[k]),
                ) && qc_text(rs.subrange(0, k + 1)).len() == oldpos + qc_line_text(rs[k]).len()
                    && rs[k].wf());
            }
        }
        match line {
            QcLine::Keep(rec, j) => {
                let ghost recv = rec@;
                out.push(rec);
                pos = j;
                proof {
                    assert forall|rs: Seq<QcRecordV>|
                        qc_records_ok(rs) && s@ == #[trigger] qc_text(rs) implies exists|k2: int|
                        0 <= k2 <= rs.len() && qc_views(out@) == kept(rs.subrange(0, k2)) && pos
                            == qc_text(rs.subrange(0, k2)).len() by {
                        let k = choose|k: int|
                            0 <= k < rs.len() && qc_views(oldout) == kept(rs.subrange(0, k))
                                && oldpos == qc_text(rs.subrange(0, k)).len() && begins(
                                s@,
                                oldpos as int,
                                qc_line_text(rs[k]),
                            ) && qc_text(rs.subrange(0, k + 1)).len() == oldpos + qc_line_text(
                                rs[k],
                            ).len() && rs[k].wf();
                        assert(recv == rs[k]);
                        assert(rs.subrange(0, k + 1).drop_last() =~= rs.subrange(0, k));
                        assert(rs.subrange(0, k + 1).last() == rs[k]);
                        assert(qc_views(out@) =~= qc_views(oldout).push(recv));
                        assert(qc_views(out@) == kept(rs.subrange(0, k + 1)));
                        assert(pos == qc_text(rs.subrange(0, k + 1)).len());
                        assert(0 <= k + 1 <= rs.len());
                    }
                }
            },
            QcLine::Drop(j) => {
                pos = j;
                proof {
                    assert forall|rs: Seq<QcRecordV>|
                        qc_records_ok(rs) && s@ == #[trigger] qc_text(rs) implies exists|k2: int|
                        0 <= k2 <= rs.len() && qc_views(out@) == kept(rs.subrange(0, k2)) && pos
                            == qc_text(rs.subrange(0, k2)).len() by {
                        let k = choose|k: int|
                            0 <= k < rs.len() && qc_views(oldout) == kept(rs.subrange(0, k))
                                && oldpos == qc_text(rs.subrange(0, k)).len() && begins(
                                s@,
                                oldpos as int,
                                qc_line_text(rs[k]),
                            ) && qc_text(rs.subrange(0, k + 1)).len() == oldpos + qc_line_text(
                                rs[k],
                            ).len() && rs[k].wf();
                        assert(rs[k].mtime is None);
                        assert(rs.subrange(0, k + 1).drop_last() =~= rs.subrange(0, k));
                        assert(rs.subrange(0, k + 1).last() == rs[k]);
                        assert(qc_views(out@) == kept(rs.subrange(0, k + 1)));
                        assert(pos == qc_text(rs.subrange(0, k + 1)).len());
                        assert(0 <= k + 1 <= rs.len());
                    }
                }
            },
            QcLine::Bad => {
                proof {
                    assert forall|rs: Seq<QcRecordV>|
                        qc_records_ok(rs) && s@ == #[trigger] qc_text(rs) implies false by {
                        let k = choose|k: int|
                            0 <= k < rs.len() && qc_views(oldout) == kept(rs.subrange(0, k))
                                && oldpos == qc_text(rs.subrange(0, k)).len() && begins(
                                s@,
                                oldpos as int,
                                qc_line_text(rs[k]),
                            ) && qc_text(rs.subrange(0, k + 1)).len() == oldpos + qc_line_text(
                                rs[k],
                            ).len() && rs[k].wf();
                        assert(begins(s@, oldpos as int, qc_line_text(rs[k])));
                    }
                }
                return None;
            },
        }
    }
    proof {
        assert forall|rs: Seq<QcRecordV>|
            qc_records_ok(rs) && s@ == #[trigger] qc_text(rs) implies qc_views(out@) == kept(
            rs,
        ) by {
            let k = choose|k: int|
                0 <= k <= rs.len() && qc_views(out@) == kept(rs.subrange(0, k)) && pos == qc_text(
                    rs.subrange(0, k),
                ).len();
            lemma_qc_prefix_len(s@, rs, k);
            assert(k == rs.len());
            assert(rs.subrange(0, k) =~= rs);
        }
    }
    Some(out)
}

/// Section text distributes over concatenation of record lists.
proof fn lemma_qc_text_concat(a: Seq<QcRecordV>, b: Seq<QcRecordV>)
    ensures
        qc_text(a + b) == qc_text(a) + qc_text(b),
    decreases b.len(),
{
    if b.len() == 0 {
        assert(a + b =~= a);
        assert(qc_text(a + b) =~= qc_text(a) + qc_text(b));
    } else {
        assert((a + b).drop_last() =~= a + b.drop_last());
        lemma_qc_text_concat(a, b.drop_last());
        assert(qc_text(a + b) =~= qc_text(a) + qc_text(b));
    }
}

/// Every record line is at least one byte long.
proof fn lemma_qc_text_len(rs: Seq<QcRecordV>)
    ensures
        qc_text(rs).len() >= rs.len(),
    decreases rs.len(),
{
    if rs.len() > 0 {
        lemma_qc_text_len(rs.drop_last());
    }
}

/// Where the `k`-th record line stands in the file text.
proof fn lemma_qc_line_at(s: Seq<u8>, rs: Seq<QcRecordV>, k: int)
    requires
        qc_records_ok(rs),
        s == qc_text(rs),
        0 <= k < rs.len(),
    ensures
        begins(s, qc_text(rs.subrange(0, k)).len() as int, qc_line_text(rs[k])),
        qc_text(rs.subrange(0, k + 1)).len() == qc_text(rs.subrange(0, k)).len() + qc_line_text(
            rs[k],
        ).len(),
        rs[k].wf(),
{
    let pre = rs.subrange(0, k);
    let line = qc_line_text(rs[k]);
    let rest = rs.subrange(k + 1, rs.len() as int);
    assert(rs =~= pre + seq![rs[k]] + rest);
    lemma_qc_text_concat(pre + seq![rs[k]], rest);
    lemma_qc_text_concat(pre, seq![rs[k]]);
    assert(seq![rs[k]].drop_last() =~= Seq::<QcRecordV>::empty());
    assert(qc_text(Seq::<QcRecordV>::empty()) =~= Seq::<u8>::empty());
    assert(qc_text(seq![rs[k]]) =~= line);
    assert(s =~= qc_text(pre) + line + qc_text(rest));
    let base = qc_text(pre).len() as int;
    assert forall|j: int| 0 <= j < line.len() implies s[base + j] == line[j] by {
        assert(s[base + j] == (qc_text(pre) + line + qc_text(rest))[base + j]);
    }
    assert(rs.subrange(0, k + 1) =~= pre + seq![rs[k]]);
}

/// A parsed prefix never overruns the file, and fills it exactly when every
/// record is consumed.
proof fn lemma_qc_prefix_len(s: Seq<u8>, rs: Seq<QcRecordV>, k: int)
    requires
        qc_records_ok(rs),
        s == qc_text(rs),
        0 <= k <= rs.len(),
    ensures
        qc_text(rs.subrange(0, k)).len() <= s.len(),
        (qc_text(rs.subrange(0, k)).len() == s.len()) == (k == rs.len()),
    decreases rs.len() - k,
{
    if k == rs.len() {
        assert(rs.subrange(0, k) =~= rs);
    } else {
        lemma_qc_line_at(s, rs, k);
        lemma_qc_text_len(rs.subrange(k + 1, rs.len() as int));
        assert(qc_line_text(rs[k]).len() >= 1);
        lemma_qc_prefix_len(s, rs, k + 1);
    }
}



/// Round trip: loading a serialized index keeps exactly the records with a
/// known modification time, in order.
pub fn quickcheck_round_trip(records: &Vec<QcRecord>) -> (r: Option<Vec<QcRecord>>)
    requires
        forall|i: int| 0 <= i < records@.len() ==> (#[trigger] records@[i]).wf(),
    ensures
        r matches Some(out) && qc_views(out@) == kept(qc_views(records@)),
{
    let text = serialize_quickcheck(records);
    let r = parse_quickcheck(text.as_slice());
    proof {
        assert(qc_records_ok(qc_views(records@)));
    }
    r
}

/// One indexed record: the path fingerprint and the record itself.
pub struct QcSlot {
    pub key: u32,
    pub rec: QcRecord,
}

/// Mathematical value of a [`QcSlot`].
#[verifier::ext_equal]
pub ghost struct QcSlotV {
    pub key: u32,
    pub rec: QcRecordV,
}

impl View for QcSlot {
    type V = QcSlotV;

    open spec fn view(&self) -> QcSlotV {
        QcSlotV { key: self.key, rec: self.rec@ }
    }
}

/// The in-memory quickcheck index: records sorted by path fingerprint.
///
/// Fingerprints are unique within the index; when two paths collide the
/// later insertion wins, as in the persisted file the later line wins.
pub struct QcMap {
    pub slots: Vec<QcSlot>,
}

impl View for QcMap {
    type V = Seq<QcSlotV>;

    open spec fn view(&self) -> Seq<QcSlotV> {
        self.slots@.map_values(|s: QcSlot| s@)
    }
}

impl QcMap {
    /// Slots strictly sorted by fingerprint, records well-formed.
    pub open spec fn wf(&self) -> bool {
        &&& forall|i: int, j: int|
            0 <= i < j < self@.len() ==> (#[trigger] self@[i]).key < (#[trigger] self@[j]).key
        &&& forall|i: int| 0 <= i < self@.len() ==> (#[trigger] self@[i]).rec.wf()
    }

    pub open spec fn contains_key(&self, k: u32) -> bool {
        exists|i: int| 0 <= i < self@.len() && self@[i].key == k
    }

    pub open spec fn index_of(&self, k: u32) -> int {
        choose|i: int| 0 <= i < self@.len() && self@[i].key == k
    }

    pub open spec fn value_at(&self, k: u32) -> QcRecordV {
        self@[self.index_of(k)].rec
    }

    /// The index as a mathematical map from fingerprint to record.
    pub open spec fn as_map(&self) -> Map<u32, QcRecordV> {
        Map::new(|k: u32| self.contains_key(k), |k: u32| self.value_at(k))
    }

    pub proof fn lemma_unique(&self, i: int, j: int)
        requires
            forall|x: int, y: int|
                0 <= x < y < self@.len() ==> (#[trigger] self@[x]).key < (#[trigger] self@[y]).key,
            0 <= i < self@.len(),
            0 <= j < self@.len(),
            self@[i].key == self@[j].key,
        ensures
            i == j,
    {
    }

    /// An empty index.
    pub fn new() -> (r: QcMap)
        ensures
            r@ =~= Seq::<QcSlotV>::empty(),
            r.wf(),
    {
        QcMap { slots: Vec::new() }
    }

    /// Number of records.
    pub fn len(&self) -> (r: usize)
        ensures
            r == self@.len(),
    {
        self.slots.len()
    }

    /// Remove and return the record under fingerprint `k`, if present.
    pub fn remove(&mut self, k: u32) -> (r: Option<QcRecord>)
        requires
            old(self).wf(),
        ensures
            final(self).wf(),
            match r {
                Some(rec) => {
                    &&& old(self).contains_key(k)
                    &&& rec@ == old(self).value_at(k)
                    &&& rec.wf()
                    &&& final(self)@ == old(self)@.remove(old(self).index_of(k))
                },
                None => {
                    &&& !old(self).contains_key(k)
                    &&& final(self)@ == old(self)@
                },
            },
            final(self).as_map() =~= old(self).as_map().remove(k),
    {
        let ghost pre = *self;
        let n = self.slots.len();
        let mut i: usize = 0;
        while i < n
            invariant
                0 <= i <= n,
                n == self@.len(),
                *self == pre,
                pre == *old(self),
                pre.wf(),
                forall|j: int| 0 <= j < i ==> (#[trigger] self@[j]).key != k,
            decreases n - i,
        {
            if self.slots[i].key == k {
                proof {
                    assert(self@[i as int].key == k);
                    assert(self.contains_key(k));
                    pre.lemma_unique(pre.index_of(k), i as int);
                }
                let s = self.slots.remove(i);
                proof {
                    assert(self@ =~~= pre@.remove(i as int));
                    self.lemma_after_remove(pre, i as int, k);
                }
                return Some(s.rec);
            }
            i = i + 1;
        }
        proof {
            assert(!self.contains_key(k));
            assert(self.as_map() =~= pre.as_map().remove(k));
        }
        None
    }

    proof fn lemma_after_remove(&self, pre: QcMap, i: int, k: u32)
        requires
            pre.wf(),
            0 <= i < pre@.len(),
            pre@[i].key == k,
            self@ == pre@.remove(i),
        ensures
            self.wf(),
            self.as_map() =~= pre.as_map().remove(k),
    {
        pre@.remove_ensures(i);
        assert forall|x: int| 0 <= x < self@.len() implies (#[trigger] self@[x]).rec.wf() by {
            let px = if x < i {
                x
            } else {
                x + 1
            };
            assert(self@[x] == pre@[px]);
        }
        assert forall|x: int, y: int| 0 <= x < y < self@.len() implies (
        #[trigger] self@[x]).key < (#[trigger] self@[y]).key by {
            let px = if x < i {
                x
            } else {
                x + 1
            };
            let py = if y < i {
                y
            } else {
                y + 1
            };
            assert(self@[x] == pre@[px]);
            assert(self@[y] == pre@[py]);
        }
        assert forall|q: u32| #[trigger] self.contains_key(q) implies pre.contains_key(q) && q
            != k by {
            let x = choose|x: int| 0 <= x < self@.len() && self@[x].key == q;
            let px = if x < i {
                x
            } else {
                x + 1
            };
            assert(pre@[px].key == q);
            if q == k {
                pre.lemma_unique(px, i);
            }
        }
        assert forall|q: u32| pre.contains_key(q) && q != k implies #[trigger] self.contains_key(
            q,
        ) by {
            let x = choose|x: int| 0 <= x < pre@.len() && pre@[x].key == q;
            if x < i {
                assert(self@[x].key == q);
            } else {
                if x == i {
                    pre.lemma_unique(x, i);
                }
                assert(self@[x - 1].key == q);
            }
        }
        assert forall|q: u32| #[trigger] self.contains_key(q) implies self.value_at(q)
            == pre.value_at(q) by {
            let x = self.index_of(q);
            assert(self@[x].key == q);
            let px = if x < i {
                x
            } else {
                x + 1
            };
            assert(pre@[px].key == q);
            pre.lemma_unique(pre.index_of(q), px);
        }
    }

    /// Insert `rec` under fingerprint `k`, replacing any existing record.
    pub fn insert(&mut self, k: u32, rec: QcRecord)
        requires
            old(self).wf(),
            rec.wf(),
        ensures
            final(self).wf(),
            final(self).as_map() =~= old(self).as_map().insert(k, rec@),
    {
        let ghost pre = *self;
        let ghost rv = rec@;
        let n = self.slots.len();
        let mut i: usize = 0;
        while i < n
            invariant
                0 <= i <= n,
                n == self@.len(),
                *self == pre,
                pre == *old(self),
                pre.wf(),
                rv == rec@,
                rec.wf(),
                forall|j: int| 0 <= j < i ==> (#[trigger] self@[j]).key < k,
            decreases n - i,
        {
            let sk = self.slots[i].key;
            if sk == k {
                self.slots[i] = QcSlot { key: k, rec };
                proof {
                    assert(self@ =~~= pre@.update(i as int, QcSlotV { key: k, rec: rv }));
                    self.lemma_after_set(pre, i as int, rv);
                }
                return ;
            }
            if sk > k {
                self.slots.insert(i, QcSlot { key: k, rec });
                proof {
                    assert(self@ =~~= pre@.insert(i as int, QcSlotV { key: k, rec: rv }));
                    self.lemma_after_insert(pre, i as int, k, rv);
                }
                return ;
            }
            i = i + 1;
        }
        self.slots.push(QcSlot { key: k, rec });
        proof {
            assert(self@ =~~= pre@.insert(n as int, QcSlotV { key: k, rec: rv }));
            self.lemma_after_insert(pre, n as int, k, rv);
        }
    }

    proof fn lemma_after_set(&self, pre: QcMap, i: int, rv: QcRecordV)
        requires
            pre.wf(),
            rv.wf(),
            0 <= i < pre@.len(),
            self@ == pre@.update(i, QcSlotV { key: pre@[i].key, rec: rv }),
        ensures
            self.wf(),
            self.as_map() =~= pre.as_map().insert(pre@[i].key, rv),
    {
        let k = pre@[i].key;
        assert forall|x: int, y: int| 0 <= x < y < self@.len() implies (
        #[trigger] self@[x]).key < (#[trigger] self@[y]).key by {
            assert(self@[x].key == pre@[x].key);
            assert(self@[y].key == pre@[y].key);
        }
        assert forall|q: u32| #[trigger] self.contains_key(q) == pre.contains_key(q) by {
            if self.contains_key(q) {
                let x = choose|x: int| 0 <= x < self@.len() && self@[x].key == q;
                assert(pre@[x].key == q);
            }
            if pre.contains_key(q) {
                let x = choose|x: int| 0 <= x < pre@.len() && pre@[x].key == q;
                assert(self@[x].key == q);
            }
        }
        assert forall|q: u32| #[trigger] self.contains_key(q) implies self.value_at(q) == (
        if q == k {
            rv
        } else {
            pre.value_at(q)
        }) by {
            let x = self.index_of(q);
            assert(self@[x].key == q);
            assert(pre@[x].key == q);
            if q == k {
                pre.lemma_unique(x, i);
            } else {
                pre.lemma_unique(pre.index_of(q), x);
            }
        }
    }

    proof fn lemma_after_insert(&self, pre: QcMap, i: int, k: u32, rv: QcRecordV)
        requires
            pre.wf(),
            rv.wf(),
            0 <= i <= pre@.len(),
            self@ == pre@.insert(i, QcSlotV { key: k, rec: rv }),
            forall|j: int| 0 <= j < i ==> (#[trigger] pre@[j]).key < k,
            i < pre@.len() ==> k < pre@[i].key,
        ensures
            self.wf(),
            self.as_map() =~= pre.as_map().insert(k, rv),
    {
        pre@.insert_ensures(i, QcSlotV { key: k, rec: rv });
        assert forall|x: int, y: int| 0 <= x < y < self@.len() implies (
        #[trigger] self@[x]).key < (#[trigger] self@[y]).key by {
            if x != i && y != i {
                let px = if x < i {
                    x
                } else {
                    x - 1
                };
                let py = if y < i {
                    y
                } else {
                    y - 1
                };
                assert(self@[x] == pre@[px] && self@[y] == pre@[py]);
            } else if x == i {
                assert(self@[y] == pre@[y - 1]);
            } else {
                assert(y == i);
                assert(self@[x] == pre@[x]);
            }
        }
        assert forall|x: int| 0 <= x < self@.len() implies (#[trigger] self@[x]).rec.wf() by {
            if x != i {
                let px = if x < i {
                    x
                } else {
                    x - 1
                };
                assert(self@[x] == pre@[px]);
            }
        }
        assert(self@[i].key == k);
        assert(self.contains_key(k));
        assert forall|q: u32| #[trigger] self.contains_key(q) implies (q == k || pre.contains_key(
            q,
        )) by {
            let x = choose|x: int| 0 <= x < self@.len() && self@[x].key == q;
            if x != i {
                let px = if x < i {
                    x
                } else {
                    x - 1
                };
                assert(pre@[px].key == q);
            }
        }
        assert forall|q: u32| pre.contains_key(q) implies #[trigger] self.contains_key(q) by {
            let x = choose|x: int| 0 <= x < pre@.len() && pre@[x].key == q;
            if x < i {
                assert(self@[x].key == q);
            } else {
                assert(self@[x + 1].key == q);
            }
        }
        assert forall|q: u32| #[trigger] self.contains_key(q) implies self.value_at(q) == (
        if q == k {
            rv
        } else {
            pre.value_at(q)
        }) by {
            let x = self.index_of(q);
            assert(self@[x].key == q);
            if q == k {
                self.lemma_unique(x, i);
            } else {
                assert(x != i);
                let px = if x < i {
                    x
                } else {
                    x - 1
                };
                assert(pre@[px].key == q);
                pre.lemma_unique(pre.index_of(q), px);
            }
        }
    }

    /// Hand out the remaining records, in fingerprint order.
    pub fn into_records(self) -> (r: Vec<QcRecord>)
        ensures
            qc_views(r@) == self@.map_values(|s: QcSlotV| s.rec),
    {
        let mut out: Vec<QcRecord> = Vec::new();
        let n = self.slots.len();
        let mut slots = self.slots;
        let ghost pre = slots@;
        let mut i: usize = 0;
        while i < n
            invariant
                0 <= i <= n,
                n == pre.len(),
                slots@ == pre,
                out@.len() == i,
                forall|j: int| 0 <= j < i ==> (#[trigger] out@[j])@ == pre[j]@.rec,
            decreases n - i,
        {
            let rec = clone_record(&slots[i].rec);
            out.push(rec);
            i = i + 1;
        }
        proof {
            assert(qc_views(out@) =~= pre.map_values(|s: QcSlot| s@).map_values(
                |s: QcSlotV| s.rec,
            ));
        }
        out
    }
}

/// Clone one record.
pub fn clone_record(r: &QcRecord) -> (c: QcRecord)
    ensures
        c@ == r@,
{
    QcRecord {
        path: vstd::slice::slice_to_vec(r.path.as_slice()),
        mtime: r.mtime,
        meta: r.meta.clone(),
    }
}

/// The index that a record list loads into: later lines win on collision.
pub open spec fn index_fold(rs: Seq<QcRecordV>) -> Map<u32, QcRecordV>
    decreases rs.len(),
{
    if rs.len() == 0 {
        Map::empty()
    } else {
        index_fold(rs.drop_last()).insert(crc_of(rs.last().path), rs.last())
    }
}

/// Build the fingerprint index from loaded records.
pub fn build_index(records: Vec<QcRecord>) -> (r: QcMap)
    requires
        forall|i: int| 0 <= i < records@.len() ==> (#[trigger] records@[i]).wf(),
    ensures
        r.wf(),
        r.as_map() == index_fold(qc_views(records@)),
{
    let mut m = QcMap::new();
    let n = records.len();
    let mut records = records;
    let ghost pre = records@;
    proof {
        assert(m.as_map() =~= index_fold(qc_views(pre).subrange(0, 0))) by {
            assert(qc_views(pre).subrange(0, 0) =~= Seq::<QcRecordV>::empty());
        }
    }
    let mut i: usize = 0;
    while i < n
        invariant
            0 <= i <= n,
            n == pre.len(),
            records@ == pre,
            forall|j: int| 0 <= j < pre.len() ==> (#[trigger] pre[j]).wf(),
            m.wf(),
            m.as_map() == index_fold(qc_views(pre).subrange(0, i as int)),
        decreases n - i,
    {
        let rec = clone_record(&records[i]);
        let key = assembly_pack::crc::calculate_crc(rec.path.as_slice());
        m.insert(key, rec);
        proof {
            let vs = qc_views(pre);
            assert(vs.subrange(0, i + 1 as int).drop_last() =~= vs.subrange(0, i as int));
            assert(vs.subrange(0, i + 1 as int).last() == pre[i as int]@);
            assert(m.as_map() =~= index_fold(vs.subrange(0, i + 1 as int)));
        }
        i = i + 1;
    }
    proof {
        assert(qc_views(pre).subrange(0, n as int) =~= qc_views(pre));
    }
    m
}

} // verus!
