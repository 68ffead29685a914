//! List-driven scanning: normalizing the paths read from a list file.
//!
//! Each line names one candidate. Slashes become backslashes — the fixed
//! separator of logical paths — and the project prefix is stripped (unless
//! relative mode already did away with it) to resolve the file on disk. A
//! line whose prefix does not match is skipped.

use vstd::prelude::*;

use crate::manifest::begins;

verus! {

/// Slashes replaced by backslashes.
pub open spec fn backslashed(s: Seq<u8>) -> Seq<u8> {
    s.map_values(|b: u8| if b == 47 { 92u8 } else { b })
}

/// Replace every slash with a backslash.
pub fn backslashify(s: &[u8]) -> (r: Vec<u8>)
    ensures
        r@ == backslashed(s@),
{
    let mut r: Vec<u8> = Vec::new();
    let n = s.len();
    let mut i: usize = 0;
    while i < n
        invariant
            0 <= i <= n,
            n == s@.len(),
            r@ =~= backslashed(s@).subrange(0, i as int),
        decreases n - i,
    {
        let b = s[i];
        if b == 47 {
            r.push(92);
        } else {
            r.push(b);
        }
        proof {
            assert(r@ =~= backslashed(s@).subrange(0, i + 1 as int));
        }
        i = i + 1;
    }
    proof {
        assert(backslashed(s@).subrange(0, n as int) =~= backslashed(s@));
    }
    r
}

/// ASCII whitespace, as trimmed from listed paths.
pub open spec fn is_blank(b: u8) -> bool {
    b == 32 || b == 9 || b == 13 || b == 10
}

/// Strip leading and trailing ASCII whitespace.
pub fn trim_bytes(s: &[u8]) -> (r: Vec<u8>)
    ensures
        exists|f: int, b: int|
            {
                &&& 0 <= f <= b <= s@.len()
                &&& #[trigger] r@ == s@.subrange(f, b)
                &&& (forall|t: int| 0 <= t < f ==> is_blank(#[trigger] s@[t]))
                &&& (forall|t: int| b <= t < s@.len() ==> is_blank(#[trigger] s@[t]))
                &&& (f < b ==> !is_blank(s@[f]) && !is_blank(s@[b - 1]))
            },
{
    let n = s.len();
    let mut f: usize = 0;
    while f < n && (s[f] == 32 || s[f] == 9 || s[f] == 13 || s[f] == 10)
        invariant
            0 <= f <= n,
            n == s@.len(),
            forall|t: int| 0 <= t < f ==> is_blank(#[trigger] s@[t]),
        decreases n - f,
    {
        f = f + 1;
    }
    let mut b: usize = n;
    while b > f && (s[b - 1] == 32 || s[b - 1] == 9 || s[b - 1] == 13 || s[b - 1] == 10)
        invariant
            f <= b <= n,
            n == s@.len(),
            forall|t: int| b <= t < s@.len() ==> is_blank(#[trigger] s@[t]),
        decreases b,
    {
        b = b - 1;
    }
    let r = vstd::slice::slice_to_vec(&s[f..b]);
    proof {
        if f < b {
            assert(!is_blank(s@[f as int]));
            assert(!is_blank(s@[b - 1]));
        }
        assert(r@ == s@.subrange(f as int, b as int));
    }
    r
}

/// The rest of `s` after the prefix, when it begins with it.
pub fn strip_prefix_bytes(s: &[u8], prefix: &[u8]) -> (r: Option<Vec<u8>>)
    ensures
        match r {
            Some(rest) => begins(s@, 0, prefix@) && rest@ == s@.skip(prefix@.len() as int),
            None => !begins(s@, 0, prefix@),
        },
{
    let np = prefix.len();
    if s.len() < np {
        return None;
    }
    let mut i: usize = 0;
    while i < np
        invariant
            0 <= i <= np,
            np == prefix@.len(),
            np <= s@.len(),
            forall|t: int| 0 <= t < i ==> s@[t] == prefix@[t],
        decreases np - i,
    {
        if s[i] != prefix[i] {
            return None;
        }
        i = i + 1;
    }
    let rest = vstd::slice::slice_to_vec(&s[np..s.len()]);
    proof {
        assert(rest@ =~= s@.skip(np as int));
    }
    Some(rest)
}

/// Normalize one listed line: fix separators, then strip the project
/// prefix to find the file under the project directory.
///
/// Returns the logical path (prefix kept, separators fixed, untrimmed) and
/// the project-relative path (trimmed), or nothing when the line does not
/// carry the prefix.
pub fn normalize_listed_path(line: &[u8], strip: &[u8]) -> (r: Option<(Vec<u8>, Vec<u8>)>)
    ensures
        match r {
            Some(pair) => {
                &&& pair.0@ == backslashed(line@)
                &&& begins(backslashed(line@), 0, strip@)
                &&& exists|f: int, b: int|
                    {
                        let rest = backslashed(line@).skip(strip@.len() as int);
                        &&& 0 <= f <= b <= rest.len()
                        &&& pair.1@ == #[trigger] backslashed(line@).skip(
                            strip@.len() as int,
                        ).subrange(f, b)
                        &&& (forall|t: int| 0 <= t < f ==> is_blank(#[trigger] rest[t]))
                        &&& (forall|t: int| b <= t < rest.len() ==> is_blank(#[trigger] rest[t]))
                        &&& (f < b ==> !is_blank(rest[f]) && !is_blank(rest[b - 1]))
                    }
            },
            None => !begins(backslashed(line@), 0, strip@),
        },
{
    let path = backslashify(line);
    match strip_prefix_bytes(path.as_slice(), strip) {
        Some(rest) => {
            let rel = trim_bytes(rest.as_slice());
            Some((path, rel))
        },
        None => None,
    }
}

} // verus!
