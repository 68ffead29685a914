//! Incremental content-addressed asset cache and archive assembly.
//!
//! The library scans a project's asset tree, skips unchanged files by
//! modification time, digests and compresses changed content into a
//! content-addressed store, maintains a versioned manifest of every asset,
//! and plans the packing of selected assets into distribution archives.
//! Logical paths, file names and persisted text are byte strings
//! throughout; the filesystem separator of real paths is `/`, the fixed
//! separator of logical paths is `\`.

use vstd::prelude::*;

pub mod cache;
pub mod codec;
pub mod config;
pub mod hashes;
pub mod manifest;
pub mod matcher;
pub mod meta;
pub mod order;
pub mod pack;
pub mod pathmap;
pub mod pki;
pub mod quickcheck;
pub mod scan;

use crate::config::{GeneralConfig, ProjectConfig};
use crate::scan::backslashed;

verus! {

/// The subcommands a run can perform.
pub enum Commands {
    /// Scan and cache a project, producing a manifest.
    Cache(crate::cache::Args),
    /// Assemble archives from a manifest and a placement index.
    Pack(crate::pack::Args),
    /// Generate a placement index.
    PKI(crate::pki::Args),
}

/// A base directory joined with a relative component.
pub open spec fn joined(a: Seq<u8>, b: Seq<u8>) -> Seq<u8> {
    a + seq![47u8] + b
}

/// Join a relative component onto a base directory.
pub fn join_path(a: &[u8], b: &[u8]) -> (r: Vec<u8>)
    ensures
        r@ == joined(a@, b@),
{
    let mut r = vstd::slice::slice_to_vec(a);
    r.push(47);
    r.extend_from_slice(b);
    proof {
        assert(r@ =~= joined(a@, b@));
    }
    r
}

/// The bytes after the last `/`; empty when the path ends with one.
pub open spec fn after_last_slash(s: Seq<u8>) -> Seq<u8>
    decreases s.len(),
{
    if s.len() == 0 {
        s
    } else if s.last() == 47 {
        Seq::empty()
    } else {
        after_last_slash(s.drop_last()).push(s.last())
    }
}

/// The final path component.
pub fn file_name_of(s: &[u8]) -> (r: Vec<u8>)
    ensures
        r@ == after_last_slash(s@),
{
    let n = s.len();
    let mut k: usize = n;
    proof {
        assert(s@.subrange(0, n as int) =~= s@);
        assert(s@.skip(n as int) =~= Seq::<u8>::empty());
        assert(after_last_slash(s@) + s@.skip(n as int) =~= after_last_slash(s@));
    }
    while k > 0 && s[k - 1] != 47
        invariant
            0 <= k <= n,
            n == s@.len(),
            after_last_slash(s@) == after_last_slash(s@.subrange(0, k as int)) + s@.skip(k as int),
        decreases k,
    {
        proof {
            assert(s@.subrange(0, k as int).last() == s@[k - 1]);
            assert(s@.subrange(0, k as int).drop_last() =~= s@.subrange(0, k - 1));
            assert(after_last_slash(s@.subrange(0, k as int)) == after_last_slash(
                s@.subrange(0, k - 1),
            ).push(s@[k - 1]));
            assert(after_last_slash(s@.subrange(0, k - 1)).push(s@[k - 1]) + s@.skip(k as int)
                =~= after_last_slash(s@.subrange(0, k - 1)) + s@.skip(k - 1));
        }
        k = k - 1;
    }
    let r = vstd::slice::slice_to_vec(&s[k..s.len()]);
    proof {
        if k == 0 {
            assert(s@.subrange(0, 0).len() == 0);
            assert(after_last_slash(s@.subrange(0, 0)) + s@.skip(0) =~= s@.skip(0));
        } else {
            assert(s@[k - 1] == 47);
            assert(s@.subrange(0, k as int).last() == 47);
            assert(after_last_slash(s@.subrange(0, k as int)) + s@.skip(k as int) =~= s@.skip(
                k as int,
            ));
        }
        assert(r@ == s@.skip(k as int));
    }
    r
}

/// Both separator styles mapped to the logical backslash.
pub open spec fn sepmapped(s: Seq<u8>) -> Seq<u8> {
    s.map_values(|b: u8| if b == 47 || b == 92 { 92u8 } else { b })
}

/// End of the leading run of separators.
pub open spec fn sep_run(s: Seq<u8>, i: int) -> int
    decreases s.len() - i,
{
    if i < 0 || i >= s.len() || !(s[i] == 47 || s[i] == 92) {
        i
    } else {
        sep_run(s, i + 1)
    }
}

proof fn lemma_sep_run_bounds(s: Seq<u8>, i: int)
    requires
        0 <= i <= s.len(),
    ensures
        i <= sep_run(s, i) <= s.len(),
        forall|t: int| i <= t < sep_run(s, i) ==> s[t] == 47 || s[t] == 92,
        sep_run(s, i) < s.len() ==> !(s[sep_run(s, i)] == 47 || s[sep_run(s, i)] == 92),
    decreases s.len() - i,
{
    if i < s.len() && (s[i] == 47 || s[i] == 92) {
        lemma_sep_run_bounds(s, i + 1);
    }
}

/// The resource prefix: the project prefix extended by the resource
/// directory's components, separated by logical backslashes. With an empty
/// prefix the resource path's leading separators are dropped.
pub open spec fn res_prefix_spec(prefix: Seq<u8>, res_name: Seq<u8>) -> Seq<u8> {
    if res_name.len() == 0 {
        prefix
    } else if prefix.len() > 0 {
        prefix + seq![92u8] + sepmapped(res_name)
    } else {
        sepmapped(res_name.skip(sep_run(res_name, 0)))
    }
}

/// Build the resource prefix.
fn build_res_prefix(prefix: &[u8], res_name: &[u8]) -> (r: Vec<u8>)
    ensures
        r@ == res_prefix_spec(prefix@, res_name@),
{
    let n = res_name.len();
    if n == 0 {
        return vstd::slice::slice_to_vec(prefix);
    }
    let mut r: Vec<u8>;
    let mut i: usize;
    if prefix.len() > 0 {
        r = vstd::slice::slice_to_vec(prefix);
        r.push(92);
        i = 0;
    } else {
        proof {
            lemma_sep_run_bounds(res_name@, 0);
        }
        r = Vec::new();
        i = 0;
        while i < n && (res_name[i] == 47 || res_name[i] == 92)
            invariant
                0 <= i <= n,
                n == res_name@.len(),
                i <= sep_run(res_name@, 0),
                forall|t: int| 0 <= t < i ==> res_name@[t] == 47 || res_name@[t] == 92,
                sep_run(res_name@, 0) == sep_run(res_name@, i as int),
            decreases n - i,
        {
            proof {
                assert(sep_run(res_name@, i as int) == sep_run(res_name@, i + 1 as int));
                lemma_sep_run_bounds(res_name@, i + 1 as int);
            }
            i = i + 1;
        }
        proof {
            assert(i == sep_run(res_name@, 0));
        }
    }
    let ghost base = r@;
    let ghost start = i as int;
    while i < n
        invariant
            0 <= start <= i <= n,
            n == res_name@.len(),
            r@ =~= base + sepmapped(res_name@).subrange(start, i as int),
        decreases n - i,
    {
        let b = res_name[i];
        if b == 47 || b == 92 {
            r.push(92);
        } else {
            r.push(b);
        }
        proof {
            assert(sepmapped(res_name@)[i as int] == (if b == 47 || b == 92 {
                92u8
            } else {
                b
            }));
            assert(sepmapped(res_name@).subrange(start, i + 1 as int) =~= sepmapped(
                res_name@,
            ).subrange(start, i as int).push(sepmapped(res_name@)[i as int]));
            assert(r@ =~= base + sepmapped(res_name@).subrange(start, i + 1 as int));
        }
        i = i + 1;
    }
    proof {
        if prefix@.len() > 0 {
            assert(sepmapped(res_name@).subrange(0, n as int) =~= sepmapped(res_name@));
        } else {
            assert(sepmapped(res_name@).subrange(start, n as int) =~= sepmapped(
                res_name@.skip(start),
            ));
        }
    }
    r
}

/// The resolved filesystem and logical-path layout of one project.
pub struct Paths {
    /// The project's source directory on disk.
    pub proj_dir: Vec<u8>,
    /// The content-addressed store and manifest directory.
    pub cache_dir: Vec<u8>,
    /// Its parent, where the quickcheck file lives.
    pub cache_dir_parent: Vec<u8>,
    /// The logical prefix of the project's paths.
    pub prefix: Vec<u8>,
    /// The resource directory on disk.
    pub res_dir: Vec<u8>,
    /// The logical prefix of resource paths.
    pub res_prefix: Vec<u8>,
}

impl Paths {
    /// The resource prefix as stripped from listed paths: followed by a
    /// backslash, or empty.
    pub fn res_prefix_path(&self) -> (r: Vec<u8>)
        ensures
            self.res_prefix@.len() == 0 ==> r@ == Seq::<u8>::empty(),
            self.res_prefix@.len() > 0 ==> r@ == self.res_prefix@ + seq![92u8],
    {
        if self.res_prefix.len() == 0 {
            Vec::new()
        } else {
            let mut r = vstd::slice::slice_to_vec(self.res_prefix.as_slice());
            r.push(92);
            r
        }
    }
}

/// The arguments of a subcommand run against a chosen project.
pub struct ProjectArgs<A> {
    /// The workspace directory, holding the configuration file.
    pub dir: Vec<u8>,
    /// General settings.
    pub general: GeneralConfig,
    /// The chosen project's settings.
    pub project: ProjectConfig,
    /// The chosen project's name.
    pub name: Vec<u8>,
    /// The subcommand's own arguments.
    pub cmd: A,
}

impl<A> ProjectArgs<A> {
    /// Bundle the arguments of a run.
    pub fn new(
        dir: Vec<u8>,
        general: GeneralConfig,
        project: ProjectConfig,
        name: Vec<u8>,
        cmd: A,
    ) -> (r: ProjectArgs<A>)
        ensures
            r.dir == dir,
            r.general == general,
            r.project == project,
            r.name == name,
            r.cmd == cmd,
    {
        ProjectArgs { dir, general, project, name, cmd }
    }

    /// The source directory chosen for this project.
    pub open spec fn spec_src(&self) -> Seq<u8> {
        match self.project.src {
            Some(s) => s@,
            None => self.general.src@,
        }
    }

    /// The resource directory name chosen for this project.
    pub open spec fn spec_res_name(&self) -> Seq<u8> {
        match self.project.res {
            Some(r) => r@,
            None => self.general.res@,
        }
    }

    /// The project directory's name under the source directory.
    pub open spec fn spec_dirn(&self) -> Seq<u8> {
        match self.project.dir {
            Some(d) => d@,
            None => self.name@,
        }
    }

    /// The project directory on disk.
    pub open spec fn spec_proj_dir(&self) -> Seq<u8> {
        joined(joined(self.dir@, self.spec_src()), self.spec_dirn())
    }

    /// The logical prefix of the project's paths.
    pub open spec fn spec_prefix(&self) -> Seq<u8> {
        backslashed(
            match self.project.prefix {
                Some(p) => p@,
                None => after_last_slash(self.spec_proj_dir()),
            },
        )
    }

    /// The cache subdirectory's name.
    pub open spec fn spec_cache_key(&self) -> Seq<u8> {
        match self.project.key {
            Some(k) => k@,
            None => self.name@,
        }
    }

    /// Resolve every directory and prefix of this run.
    pub fn paths(&self) -> (r: Paths)
        requires
            after_last_slash(self.spec_proj_dir()).len() > 0,
        ensures
            r.proj_dir@ == self.spec_proj_dir(),
            r.res_dir@ == if self.spec_res_name().len() == 0 {
                self.spec_proj_dir()
            } else {
                joined(self.spec_proj_dir(), self.spec_res_name())
            },
            r.prefix@ == self.spec_prefix(),
            r.res_prefix@ == res_prefix_spec(self.spec_prefix(), self.spec_res_name()),
            r.cache_dir_parent@ == joined(self.dir@, self.project.cache@),
            r.cache_dir@ == joined(joined(self.dir@, self.project.cache@), self.spec_cache_key()),
    {
        let src: &Vec<u8> = match &self.project.src {
            Some(s) => s,
            None => &self.general.src,
        };
        let res_name: &Vec<u8> = match &self.project.res {
            Some(r) => r,
            None => &self.general.res,
        };
        let src_dir = join_path(self.dir.as_slice(), src.as_slice());
        let dirn: &Vec<u8> = match &self.project.dir {
            Some(d) => d,
            None => &self.name,
        };
        let proj_dir = join_path(src_dir.as_slice(), dirn.as_slice());
        let res_dir = if res_name.len() == 0 {
            vstd::slice::slice_to_vec(proj_dir.as_slice())
        } else {
            join_path(proj_dir.as_slice(), res_name.as_slice())
        };
        let prefix = match &self.project.prefix {
            Some(p) => crate::scan::backslashify(p.as_slice()),
            None => {
                let dir_name = file_name_of(proj_dir.as_slice());
                crate::scan::backslashify(dir_name.as_slice())
            },
        };
        let res_prefix = build_res_prefix(prefix.as_slice(), res_name.as_slice());
        let cache_key: &Vec<u8> = match &self.project.key {
            Some(k) => k,
            None => &self.name,
        };
        let cache_dir_parent = join_path(self.dir.as_slice(), self.project.cache.as_slice());
        let cache_dir = join_path(cache_dir_parent.as_slice(), cache_key.as_slice());
        Paths { proj_dir, cache_dir, cache_dir_parent, prefix, res_dir, res_prefix }
    }
}

} // verus!
