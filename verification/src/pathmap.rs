//! An ordered mapping from logical paths to manifest entries.
//!
//! Entries are kept strictly sorted by path bytes, so iterating the backing
//! vector yields the deterministic order in which manifests are written.

use vstd::prelude::*;

use crate::meta::{EntryV, FileEntry};
use crate::order::{lex_lt, lex_cmp, Cmp, lemma_lex_total, lemma_lex_trans};

verus! {

/// One path with its manifest entry.
pub struct PathEntry {
    pub path: Vec<u8>,
    pub entry: FileEntry,
}

/// Mathematical value of a [`PathEntry`].
#[verifier::ext_equal]
pub ghost struct PathEntryV {
    pub path: Seq<u8>,
    pub entry: EntryV,
}

impl View for PathEntry {
    type V = PathEntryV;

    open spec fn view(&self) -> PathEntryV {
        PathEntryV { path: self.path@, entry: self.entry@ }
    }
}

/// A mapping from logical path to [`FileEntry`], sorted by path.
pub struct PathMap {
    pub entries: Vec<PathEntry>,
}

impl View for PathMap {
    type V = Seq<PathEntryV>;

    open spec fn view(&self) -> Seq<PathEntryV> {
        self.entries@.map_values(|e: PathEntry| e@)
    }
}

/// Keys of an entry sequence, in order.
pub open spec fn keys_of(s: Seq<PathEntryV>) -> Seq<Seq<u8>> {
    s.map_values(|e: PathEntryV| e.path)
}

/// The sequence is strictly sorted by path.
pub open spec fn strictly_sorted(s: Seq<PathEntryV>) -> bool {
    forall|i: int, j: int|
        0 <= i < j < s.len() ==> lex_lt(#[trigger] s[i].path, #[trigger] s[j].path)
}

impl PathMap {
    /// Entries are strictly sorted by path and each entry is well-formed.
    pub open spec fn wf(&self) -> bool {
        &&& strictly_sorted(self@)
        &&& forall|i: int| 0 <= i < self@.len() ==> (#[trigger] self@[i]).entry.wf()
    }

    /// Whether some entry has path `p`.
    pub open spec fn contains_key(&self, p: Seq<u8>) -> bool {
        exists|i: int| 0 <= i < self@.len() && self@[i].path == p
    }

    /// The position of the entry with path `p`, assuming one exists.
    pub open spec fn index_of(&self, p: Seq<u8>) -> int {
        choose|i: int| 0 <= i < self@.len() && self@[i].path == p
    }

    /// The entry value stored at path `p`, assuming one exists.
    pub open spec fn value_at(&self, p: Seq<u8>) -> EntryV {
        self@[self.index_of(p)].entry
    }

    /// The mapping as a mathematical map.
    pub open spec fn as_map(&self) -> Map<Seq<u8>, EntryV> {
        Map::new(|p: Seq<u8>| self.contains_key(p), |p: Seq<u8>| self.value_at(p))
    }

    /// In a sorted sequence all paths are distinct.
    pub proof fn lemma_unique(&self, i: int, j: int)
        requires
            strictly_sorted(self@),
            0 <= i < self@.len(),
            0 <= j < self@.len(),
            self@[i].path == self@[j].path,
        ensures
            i == j,
    {
        if i < j {
            lemma_lex_total(self@[i].path, self@[j].path);
        } else if j < i {
            lemma_lex_total(self@[j].path, self@[i].path);
        }
    }

    /// An empty map.
    pub fn new() -> (r: PathMap)
        ensures
            r@ =~= Seq::<PathEntryV>::empty(),
            r.wf(),
    {
        PathMap { entries: Vec::new() }
    }

    /// Number of entries.
    pub fn len(&self) -> (r: usize)
        ensures
            r == self@.len(),
    {
        self.entries.len()
    }

    /// Look up the entry for path `p`.
    pub fn get(&self, p: &[u8]) -> (r: Option<&FileEntry>)
        requires
            self.wf(),
        ensures
            match r {
                Some(e) => self.contains_key(p@) && e@ == self.value_at(p@) && e.wf(),
                None => !self.contains_key(p@),
            },
    {
        let n = self.entries.len();
        let mut i: usize = 0;
        while i < n
            invariant
                0 <= i <= n,
                n == self@.len(),
                self.wf(),
                forall|j: int| 0 <= j < i ==> (#[trigger] self@[j]).path != p@,
            decreases n - i,
        {
            match lex_cmp(self.entries[i].path.as_slice(), p) {
                Cmp::Eq => {
                    proof {
                        assert(self@[i as int].path == p@);
                        assert(self.contains_key(p@));
                        self.lemma_unique(self.index_of(p@), i as int);
                    }
                    return Some(&self.entries[i].entry);
                },
                _ => {},
            }
            i = i + 1;
        }
        None
    }

    /// Remove and return the entry for path `p`, if present.
    pub fn remove(&mut self, p: &[u8]) -> (r: Option<FileEntry>)
        requires
            old(self).wf(),
        ensures
            final(self).wf(),
            match r {
                Some(e) => {
                    &&& old(self).contains_key(p@)
                    &&& e@ == old(self).value_at(p@)
                    &&& e.wf()
                    &&& final(self)@ == old(self)@.remove(old(self).index_of(p@))
                },
                None => {
                    &&& !old(self).contains_key(p@)
                    &&& final(self)@ == old(self)@
                },
            },
            final(self).as_map() =~= old(self).as_map().remove(p@),
    {
        let ghost pre = *self;
        let n = self.entries.len();
        let mut i: usize = 0;
        while i < n
            invariant
                0 <= i <= n,
                n == self@.len(),
                *self == pre,
                pre == *old(self),
                pre.wf(),
                forall|j: int| 0 <= j < i ==> (#[trigger] self@[j]).path != p@,
            decreases n - i,
        {
            match lex_cmp(self.entries[i].path.as_slice(), p) {
                Cmp::Eq => {
                    proof {
                        assert(self@[i as int].path == p@);
                        assert(self.contains_key(p@));
                        pre.lemma_unique(pre.index_of(p@), i as int);
                    }
                    let e = self.entries.remove(i);
                    proof {
                        assert(self@ =~~= pre@.remove(i as int));
                        self.lemma_after_remove(pre, i as int, p@);
                    }
                    return Some(e.entry);
                },
                _ => {},
            }
            i = i + 1;
        }
        proof {
            assert(!self.contains_key(p@));
            assert(self.as_map() =~= pre.as_map().remove(p@));
        }
        None
    }

    /// After removing position `i`, the map loses exactly the key `p`.
    proof fn lemma_after_remove(&self, pre: PathMap, i: int, p: Seq<u8>)
        requires
            pre.wf(),
            0 <= i < pre@.len(),
            pre@[i].path == p,
            self@ == pre@.remove(i),
        ensures
            self.wf(),
            self.as_map() =~= pre.as_map().remove(p),
    {
        pre@.remove_ensures(i);
        assert forall|x: int, y: int| 0 <= x < y < self@.len() implies lex_lt(
            #[trigger] self@[x].path,
            #[trigger] self@[y].path,
        ) by {
            let px = if x < i {
                x
            } else {
                x + 1
            };
            let py = if y < i {
                y
            } else {
                y + 1
            };
            assert(self@[x] == pre@[px]);
            assert(self@[y] == pre@[py]);
        }
        assert forall|x: int| 0 <= x < self@.len() implies (#[trigger] self@[x]).entry.wf() by {
            let px = if x < i {
                x
            } else {
                x + 1
            };
            assert(self@[x] == pre@[px]);
        }
        assert forall|q: Seq<u8>| #[trigger] self.contains_key(q) implies pre.contains_key(q) && q
            != p by {
            let k = choose|k: int| 0 <= k < self@.len() && self@[k].path == q;
            let pk = if k < i {
                k
            } else {
                k + 1
            };
            assert(pre@[pk].path == q);
            if q == p {
                pre.lemma_unique(pk, i);
            }
        }
        assert forall|q: Seq<u8>|
            pre.contains_key(q) && q != p implies #[trigger] self.contains_key(q) by {
            let k = choose|k: int| 0 <= k < pre@.len() && pre@[k].path == q;
            if k < i {
                assert(self@[k].path == q);
            } else {
                if k == i {
                    pre.lemma_unique(k, i);
                }
                assert(k != i);
                assert(self@[k - 1].path == q);
            }
        }
        assert forall|q: Seq<u8>| #[trigger] self.contains_key(q) implies self.value_at(q)
            == pre.value_at(q) by {
            let k = self.index_of(q);
            assert(self@[k].path == q);
            let pk = if k < i {
                k
            } else {
                k + 1
            };
            assert(pre@[pk].path == q);
            pre.lemma_unique(pre.index_of(q), pk);
        }
    }

    /// Insert `entry` under path `p`, replacing any existing entry.
    ///
    /// When `p` is greater than every present path, the new entry goes to
    /// the end and everything else is unchanged.
    pub fn insert(&mut self, p: Vec<u8>, entry: FileEntry)
        requires
            old(self).wf(),
            entry.wf(),
        ensures
            final(self).wf(),
            final(self).as_map() =~= old(self).as_map().insert(p@, entry@),
            (forall|i: int| 0 <= i < old(self)@.len() ==> lex_lt(
                (#[trigger] old(self)@[i]).path,
                p@,
            )) ==> final(self)@ == old(self)@.push(PathEntryV { path: p@, entry: entry@ }),
    {
        let ghost pre = *self;
        let ghost pv = p@;
        let ghost ev = entry@;
        let n = self.entries.len();
        let mut i: usize = 0;
        while i < n
            invariant
                0 <= i <= n,
                n == self@.len(),
                *self == pre,
                pre == *old(self),
                pre.wf(),
                pv == p@,
                ev == entry@,
                entry.wf(),
                forall|j: int| 0 <= j < i ==> lex_lt((#[trigger] self@[j]).path, pv),
            decreases n - i,
        {
            match lex_cmp(p.as_slice(), self.entries[i].path.as_slice()) {
                Cmp::Gt => {
                    proof {
                        lemma_lex_total(pv, pre@[i as int].path);
                    }
                },
                Cmp::Eq => {
                    proof {
                        lemma_lex_total(pre@[i as int].path, pv);
                    }
                    self.entries[i] = PathEntry { path: p, entry };
                    proof {
                        assert(self@ =~~= pre@.update(
                            i as int,
                            PathEntryV { path: pv, entry: ev },
                        ));
                        self.lemma_after_set(pre, i as int, ev);
                    }
                    return ;
                },
                Cmp::Lt => {
                    proof {
                        lemma_lex_total(pv, pre@[i as int].path);
                    }
                    self.entries.insert(i, PathEntry { path: p, entry });
                    proof {
                        assert(self@ =~~= pre@.insert(
                            i as int,
                            PathEntryV { path: pv, entry: ev },
                        ));
                        self.lemma_after_insert(pre, i as int, pv, ev);
                        pre@.insert_ensures(i as int, PathEntryV { path: pv, entry: ev });
                    }
                    return ;
                },
            }
            i = i + 1;
        }
        self.entries.push(PathEntry { path: p, entry });
        proof {
            assert(self@ =~~= pre@.insert(n as int, PathEntryV { path: pv, entry: ev }));
            self.lemma_after_insert(pre, n as int, pv, ev);
            pre@.insert_ensures(n as int, PathEntryV { path: pv, entry: ev });
            assert(self@ =~~= pre@.push(PathEntryV { path: pv, entry: ev }));
        }
    }

    /// Overwriting position `i` under the same path updates exactly that key.
    proof fn lemma_after_set(&self, pre: PathMap, i: int, e: EntryV)
        requires
            pre.wf(),
            e.wf(),
            0 <= i < pre@.len(),
            self@ == pre@.update(i, PathEntryV { path: pre@[i].path, entry: e }),
        ensures
            self.wf(),
            self.as_map() =~= pre.as_map().insert(pre@[i].path, e),
            self@.len() == pre@.len(),
    {
        let p = pre@[i].path;
        assert forall|x: int, y: int| 0 <= x < y < self@.len() implies lex_lt(
            #[trigger] self@[x].path,
            #[trigger] self@[y].path,
        ) by {
            assert(self@[x].path == pre@[x].path);
            assert(self@[y].path == pre@[y].path);
        }
        assert forall|q: Seq<u8>| #[trigger] self.contains_key(q) == pre.contains_key(q) by {
            if self.contains_key(q) {
                let k = choose|k: int| 0 <= k < self@.len() && self@[k].path == q;
                assert(pre@[k].path == q);
            }
            if pre.contains_key(q) {
                let k = choose|k: int| 0 <= k < pre@.len() && pre@[k].path == q;
                assert(self@[k].path == q);
            }
        }
        assert forall|q: Seq<u8>| #[trigger] self.contains_key(q) implies self.value_at(q) == (
        if q == p {
            e
        } else {
            pre.value_at(q)
        }) by {
            let k = self.index_of(q);
            assert(self@[k].path == q);
            assert(pre@[k].path == q);
            if q == p {
                pre.lemma_unique(k, i);
            } else {
                pre.lemma_unique(pre.index_of(q), k);
            }
        }
    }

    /// Inserting a fresh path at its sorted position adds exactly that key.
    proof fn lemma_after_insert(&self, pre: PathMap, i: int, p: Seq<u8>, e: EntryV)
        requires
            pre.wf(),
            e.wf(),
            0 <= i <= pre@.len(),
            self@ == pre@.insert(i, PathEntryV { path: p, entry: e }),
            forall|j: int| 0 <= j < i ==> lex_lt((#[trigger] pre@[j]).path, p),
            i < pre@.len() ==> lex_lt(p, pre@[i].path),
        ensures
            self.wf(),
            self.as_map() =~= pre.as_map().insert(p, e),
    {
        pre@.insert_ensures(i, PathEntryV { path: p, entry: e });
        assert forall|x: int, y: int| 0 <= x < y < self@.len() implies lex_lt(
            #[trigger] self@[x].path,
            #[trigger] self@[y].path,
        ) by {
            if x < i && y == i {
                assert(self@[x] == pre@[x]);
            } else if x == i && y > i {
                assert(self@[y] == pre@[y - 1]);
                if y - 1 > i {
                    lemma_lex_trans(p, pre@[i].path, pre@[y - 1].path);
                } else {
                    assert(y - 1 == i);
                }
            } else if x < i && y > i {
                assert(self@[x] == pre@[x] && self@[y] == pre@[y - 1]);
                if y - 1 == x {
                    assert(false);
                }
            } else {
                assert(x != i && y != i);
                let px = if x < i {
                    x
                } else {
                    x - 1
                };
                let py = if y < i {
                    y
                } else {
                    y - 1
                };
                assert(self@[x] == pre@[px] && self@[y] == pre@[py]);
            }
        }
        assert forall|x: int| 0 <= x < self@.len() implies (#[trigger] self@[x]).entry.wf() by {
            if x != i {
                let px = if x < i {
                    x
                } else {
                    x - 1
                };
                assert(self@[x] == pre@[px]);
            }
        }
        assert forall|q: Seq<u8>| #[trigger] self.contains_key(q) implies (q == p
            || pre.contains_key(q)) by {
            let k = choose|k: int| 0 <= k < self@.len() && self@[k].path == q;
            if k != i {
                let pk = if k < i {
                    k
                } else {
                    k - 1
                };
                assert(pre@[pk].path == q);
            }
        }
        assert forall|q: Seq<u8>| pre.contains_key(q) implies #[trigger] self.contains_key(q) by {
            let k = choose|k: int| 0 <= k < pre@.len() && pre@[k].path == q;
            if k < i {
                assert(self@[k].path == q);
            } else {
                assert(self@[k + 1].path == q);
            }
        }
        assert(self@[i].path == p);
        assert(self.contains_key(p));
        assert forall|q: Seq<u8>| #[trigger] self.contains_key(q) implies self.value_at(q) == (
        if q == p {
            e
        } else {
            pre.value_at(q)
        }) by {
            let k = self.index_of(q);
            assert(self@[k].path == q);
            if q == p {
                self.lemma_unique(k, i);
            } else {
                assert(k != i);
                let pk = if k < i {
                    k
                } else {
                    k - 1
                };
                assert(pre@[pk].path == q);
                pre.lemma_unique(pre.index_of(q), pk);
            }
        }
    }
}


/// `e` occurs in `b`. Kept opaque: raw existentials on both sides of a
/// mutual containment would feed the prover an unbounded instantiation
/// chain.
#[verifier::opaque]
pub open spec fn seq_has(b: Seq<PathEntryV>, e: PathEntryV) -> bool {
    exists|j: int| 0 <= j < b.len() && b[j] == e
}

/// Every element of `a` occurs in `b`.
pub open spec fn seq_subset(a: Seq<PathEntryV>, b: Seq<PathEntryV>) -> bool {
    forall|i: int| 0 <= i < a.len() ==> seq_has(b, #[trigger] a[i])
}

/// Pick the occurrence of one element.
proof fn lemma_subset_member(a: Seq<PathEntryV>, b: Seq<PathEntryV>, i: int) -> (j: int)
    requires
        seq_subset(a, b),
        0 <= i < a.len(),
    ensures
        0 <= j < b.len(),
        b[j] == a[i],
{
    assert(seq_has(b, a[i]));
    reveal(seq_has);
    choose|j: int| 0 <= j < b.len() && b[j] == a[i]
}

/// In sorted lists with the same elements, the last elements agree.
proof fn lemma_subset_last(a: Seq<PathEntryV>, b: Seq<PathEntryV>)
    requires
        strictly_sorted(a),
        strictly_sorted(b),
        seq_subset(a, b),
        seq_subset(b, a),
        a.len() > 0,
    ensures
        b.len() > 0,
        b[b.len() - 1] == a[a.len() - 1],
{
    let j = lemma_subset_member(a, b, a.len() - 1);
    let k = lemma_subset_member(b, a, b.len() - 1);
    if j < b.len() - 1 {
        // a's maximum would sit below b's maximum, which itself sits in a:
        // some element of a would exceed a's own maximum
        assert(lex_lt(b[j].path, b[b.len() - 1].path));
        assert(lex_lt(a[a.len() - 1].path, a[k].path));
        if k < a.len() - 1 {
            assert(lex_lt(a[k].path, a[a.len() - 1].path));
            lemma_lex_trans(a[a.len() - 1].path, a[k].path, a[a.len() - 1].path);
            lemma_lex_total(a[a.len() - 1].path, a[a.len() - 1].path);
        } else {
            lemma_lex_total(a[a.len() - 1].path, a[k].path);
        }
        assert(false);
    }
}

/// Dropping the shared last element keeps the containment.
proof fn lemma_subset_drop(a: Seq<PathEntryV>, b: Seq<PathEntryV>)
    requires
        strictly_sorted(a),
        strictly_sorted(b),
        seq_subset(a, b),
        a.len() > 0,
        b.len() > 0,
        b[b.len() - 1] == a[a.len() - 1],
    ensures
        seq_subset(a.drop_last(), b.drop_last()),
{
    let at = a.drop_last();
    let bt = b.drop_last();
    assert forall|i: int| 0 <= i < at.len() implies seq_has(bt, #[trigger] at[i]) by {
        assert(at[i] == a[i]);
        let j2 = lemma_subset_member(a, b, i);
        if j2 == b.len() - 1 {
            assert(a[i] == a[a.len() - 1]);
            assert(lex_lt(a[i].path, a[a.len() - 1].path));
            lemma_lex_total(a[i].path, a[a.len() - 1].path);
            assert(false);
        }
        assert(bt[j2] == b[j2]);
        assert(seq_has(bt, at[i])) by {
            reveal(seq_has);
            assert(0 <= j2 < bt.len() && bt[j2] == at[i]);
        }
    }
}

/// Two strictly sorted entry lists with the same elements are the same
/// list: a sorted table is determined by the mapping it holds.
pub proof fn lemma_sorted_entries_unique(a: Seq<PathEntryV>, b: Seq<PathEntryV>)
    requires
        strictly_sorted(a),
        strictly_sorted(b),
        seq_subset(a, b),
        seq_subset(b, a),
    ensures
        a =~= b,
    decreases a.len(),
{
    if a.len() == 0 {
        if b.len() > 0 {
            let j = lemma_subset_member(b, a, 0);
            assert(false);
        }
        assert(a =~= b);
    } else {
        lemma_subset_last(a, b);
        let at = a.drop_last();
        let bt = b.drop_last();
        lemma_subset_drop(a, b);
        lemma_subset_drop(b, a);
        assert(strictly_sorted(at)) by {
            assert(forall|x: int| 0 <= x < at.len() ==> at[x] == a[x]);
        }
        assert(strictly_sorted(bt)) by {
            assert(forall|x: int| 0 <= x < bt.len() ==> bt[x] == b[x]);
        }
        lemma_sorted_entries_unique(at, bt);
        assert(a.len() == b.len());
        assert forall|x: int| 0 <= x < a.len() implies a[x] == b[x] by {
            if x < a.len() - 1 {
                assert(at[x] == bt[x]);
                assert(at[x] == a[x] && bt[x] == b[x]);
            }
        }
        assert(a =~= b);
    }
}

/// Two well-formed tables holding the same mapping hold the same entries,
/// in the same order: their persisted forms are identical.
pub proof fn lemma_equal_maps_equal_entries(a: &PathMap, b: &PathMap)
    requires
        a.wf(),
        b.wf(),
        a.as_map() == b.as_map(),
    ensures
        a@ =~= b@,
{
    assert forall|i: int| 0 <= i < a@.len() implies seq_has(b@, #[trigger] a@[i]) by {
        {
            let p = a@[i].path;
            assert(a.contains_key(p));
            assert(a.as_map().dom().contains(p));
            assert(b.as_map().dom().contains(p));
            assert(b.contains_key(p));
            let j = b.index_of(p);
            assert(b@[j].path == p);
            assert(b.as_map()[p] == b.value_at(p));
            assert(a.as_map()[p] == a.value_at(p));
            a.lemma_unique(a.index_of(p), i);
            assert(b@[j] == a@[i]);
            assert(seq_has(b@, a@[i])) by {
                reveal(seq_has);
                assert(0 <= j < b@.len() && b@[j] == a@[i]);
            }
        }
    }
    assert forall|i: int| 0 <= i < b@.len() implies seq_has(a@, #[trigger] b@[i]) by {
        {
            let p = b@[i].path;
            assert(b.contains_key(p));
            assert(b.as_map().dom().contains(p));
            assert(a.as_map().dom().contains(p));
            assert(a.contains_key(p));
            let j = a.index_of(p);
            assert(a@[j].path == p);
            assert(a.as_map()[p] == a.value_at(p));
            assert(b.as_map()[p] == b.value_at(p));
            b.lemma_unique(b.index_of(p), i);
            assert(a@[j] == b@[i]);
            assert(seq_has(a@, b@[i])) by {
                reveal(seq_has);
                assert(0 <= j < a@.len() && a@[j] == b@[i]);
            }
        }
    }
    lemma_sorted_entries_unique(a@, b@);
}

} // verus!
