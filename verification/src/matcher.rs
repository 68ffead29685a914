//! The path matcher: compiled select and exclude glob sets.
//!
//! A candidate path participates when it matches the select set — or the
//! select list is empty, which means "match everything" — and matches no
//! exclude pattern. Compilation and matching are done by the `globset`
//! crate behind trusted bindings; what a pattern set answers for a given
//! path is named, not restated.

use vstd::prelude::*;

verus! {

#[verifier::external_type_specification]
#[verifier::external_body]
pub struct ExGlobSet(globset::GlobSet);

/// The patterns a compiled glob set was built from.
pub uninterp spec fn glob_patterns(gs: globset::GlobSet) -> Seq<Seq<char>>;

/// Whether any of the patterns matches the path: what `globset` answers,
/// a function of the patterns and the path bytes alone.
pub uninterp spec fn glob_match(patterns: Seq<Seq<char>>, path: Seq<u8>) -> bool;

#[verifier::external_type_specification]
#[verifier::external_body]
pub struct ExGlobSetBuilder(globset::GlobSetBuilder);

/// The patterns added to a builder so far.
pub uninterp spec fn builder_patterns(b: globset::GlobSetBuilder) -> Seq<Seq<char>>;

/// Whether `globset` accepts a pattern as a valid glob: what `Glob::new`
/// answers, a function of the pattern text alone.
pub uninterp spec fn glob_ok(pattern: Seq<char>) -> bool;

/// Whether compiling a pattern list into a set succeeds: what a builder's
/// `build` answers, a function of the pattern texts alone.
pub uninterp spec fn glob_build_ok(patterns: Seq<Seq<char>>) -> bool;

/// Every pattern in the list is a valid glob.
pub open spec fn all_globs_ok(patterns: Seq<Seq<char>>) -> bool {
    forall|i: int| 0 <= i < patterns.len() ==> glob_ok(#[trigger] patterns[i])
}

/// A pattern list that compiles into a set.
pub open spec fn glob_set_ok(patterns: Seq<Seq<char>>) -> bool {
    all_globs_ok(patterns) && glob_build_ok(patterns)
}

/// Relies on `globset::GlobSetBuilder::new`: an empty builder.
#[verifier::external_body]
fn glob_builder_new() -> (r: globset::GlobSetBuilder)
    ensures
        builder_patterns(r) == Seq::<Seq<char>>::empty(),
{
    globset::GlobSetBuilder::new()
}

/// Relies on `globset::Glob::new` and `globset::GlobSetBuilder::add`:
/// compiles one pattern into the builder; fails exactly when the pattern
/// is not a valid glob, leaving the builder unchanged.
#[verifier::external_body]
fn glob_builder_add(b: &mut globset::GlobSetBuilder, pattern: &String) -> (r: Result<(), String>)
    ensures
        (r is Ok) == glob_ok(pattern@),
        r matches Ok(()) ==> builder_patterns(*final(b)) == builder_patterns(*old(b)).push(
            pattern@,
        ),
        r matches Err(_) ==> builder_patterns(*final(b)) == builder_patterns(*old(b)),
{
    match globset::Glob::new(pattern) {
        Ok(g) => {
            b.add(g);
            Ok(())
        },
        Err(e) => Err(format!("invalid glob pattern {:?}: {}", pattern, e)),
    }
}

/// Relies on `globset::GlobSetBuilder::build`: the compiled set matches
/// with exactly the patterns that were added; success is a function of
/// those patterns alone.
#[verifier::external_body]
fn glob_builder_build(b: &globset::GlobSetBuilder) -> (r: Result<globset::GlobSet, String>)
    ensures
        (r is Ok) == glob_build_ok(builder_patterns(*b)),
        r matches Ok(gs) ==> glob_patterns(gs) == builder_patterns(*b),
{
    b.build().map_err(|e| format!("cannot build glob set: {}", e))
}

/// Compile a pattern list into a set; fails exactly when some pattern is
/// not a valid glob or the set does not compile.
fn build_glob_set(patterns: &Vec<String>) -> (r: Result<globset::GlobSet, String>)
    ensures
        (r is Ok) == glob_set_ok(patterns.deep_view()),
        r matches Ok(gs) ==> glob_patterns(gs) == patterns.deep_view(),
{
    let mut b = glob_builder_new();
    let n = patterns.len();
    let mut i: usize = 0;
    proof {
        assert(patterns.deep_view().subrange(0, 0) =~= Seq::<Seq<char>>::empty());
    }
    while i < n
        invariant
            0 <= i <= n,
            n == patterns@.len(),
            builder_patterns(b) == patterns.deep_view().subrange(0, i as int),
            forall|j: int| 0 <= j < i ==> glob_ok(#[trigger] patterns.deep_view()[j]),
        decreases n - i,
    {
        match glob_builder_add(&mut b, &patterns[i]) {
            Ok(()) => {
                proof {
                    assert(patterns.deep_view()[i as int] == patterns@[i as int]@);
                }
            },
            Err(e) => {
                proof {
                    assert(patterns.deep_view()[i as int] == patterns@[i as int]@);
                    assert(!glob_ok(patterns.deep_view()[i as int]));
                    assert(!all_globs_ok(patterns.deep_view()));
                }
                return Err(e);
            },
        }
        proof {
            assert(patterns.deep_view().subrange(0, i + 1 as int) =~= patterns.deep_view().subrange(
                0,
                i as int,
            ).push(patterns@[i as int]@));
        }
        i = i + 1;
    }
    proof {
        assert(patterns.deep_view().subrange(0, n as int) =~= patterns.deep_view());
        assert(all_globs_ok(patterns.deep_view()));
    }
    glob_builder_build(&b)
}

/// Relies on `globset::GlobSet::is_match`: whether any pattern in the set
/// matches the path; an empty set matches nothing.
#[verifier::external_body]
fn glob_set_is_match(gs: &globset::GlobSet, path: &[u8]) -> (r: bool)
    ensures
        r == glob_match(glob_patterns(*gs), path@),
        glob_patterns(*gs).len() == 0 ==> !r,
{
    match std::str::from_utf8(path) {
        Ok(p) => gs.is_match(p),
        Err(_) => false,
    }
}

/// Compiled select/exclude predicates over logical paths.
pub struct Matcher {
    pub select: globset::GlobSet,
    pub exclude: globset::GlobSet,
    pub select_all: bool,
}

impl Matcher {
    /// Whether a path participates in the scan.
    pub open spec fn spec_accepts(&self, path: Seq<u8>) -> bool {
        (self.select_all || glob_match(glob_patterns(self.select), path)) && !glob_match(
            glob_patterns(self.exclude),
            path,
        )
    }

    /// Compile a matcher from select and exclude pattern lists. An empty
    /// select list admits every path. Construction fails exactly when some
    /// pattern is not a valid glob or a set does not compile.
    pub fn new(select: &Vec<String>, exclude: &Vec<String>) -> (r: Result<Matcher, String>)
        ensures
            (r is Ok) == (glob_set_ok(select.deep_view()) && glob_set_ok(exclude.deep_view())),
            r matches Ok(m) ==> {
                &&& glob_patterns(m.select) == select.deep_view()
                &&& glob_patterns(m.exclude) == exclude.deep_view()
                &&& m.select_all == (select@.len() == 0)
            },
    {
        let inc = match build_glob_set(select) {
            Ok(g) => g,
            Err(e) => {
                return Err(e);
            },
        };
        let exc = match build_glob_set(exclude) {
            Ok(g) => g,
            Err(e) => {
                return Err(e);
            },
        };
        Ok(Matcher { select: inc, exclude: exc, select_all: select.len() == 0 })
    }

    /// Test a path against the select and exclude sets. An empty exclude
    /// set excludes nothing, so there the select side alone decides.
    pub fn accepts(&self, path: &[u8]) -> (r: bool)
        ensures
            r == self.spec_accepts(path@),
            glob_patterns(self.exclude).len() == 0 ==> r == (self.select_all || glob_match(
                glob_patterns(self.select),
                path@,
            )),
    {
        if glob_set_is_match(&self.exclude, path) {
            return false;
        }
        if self.select_all {
            return true;
        }
        glob_set_is_match(&self.select, path)
    }
}

} // verus!
