//! The allow-list matcher: caller patterns compiled into a glob set.
//!
//! The globset crate does the matching; this module declares its types and
//! gives names to what they hold, so that the rest of the library can state
//! exactly which paths the compiled set accepts.

use vstd::prelude::*;

verus! {

#[verifier::external_type_specification]
#[verifier::external_body]
pub struct ExGlob(globset::Glob);

#[verifier::external_type_specification]
#[verifier::external_body]
pub struct ExGlobSet(globset::GlobSet);

#[verifier::external_type_specification]
#[verifier::external_body]
pub struct ExGlobSetBuilder(globset::GlobSetBuilder);

#[verifier::external_type_specification]
#[verifier::external_body]
pub struct ExGlobError(globset::Error);

/// The pattern text a compiled glob holds.
pub uninterp spec fn glob_pattern(g: globset::Glob) -> Seq<char>;

/// Whether a pattern is valid glob syntax: whether compiling it succeeds,
/// which depends on the pattern text alone.
pub uninterp spec fn glob_syntax_ok(pattern: Seq<char>) -> bool;

/// Whether the glob written as `pattern` matches `path`. The result depends
/// on the two texts alone: every glob in this crate is compiled by
/// `glob_new` with globset's default options, on this one target family, so
/// the pattern text pins the matcher.
pub uninterp spec fn glob_match(pattern: Seq<char>, path: Seq<char>) -> bool;

/// The pattern texts a compiled glob set holds, in insertion order.
pub uninterp spec fn globset_patterns(s: globset::GlobSet) -> Seq<Seq<char>>;

/// The pattern texts added to a glob set builder so far, in order.
pub uninterp spec fn builder_patterns(b: globset::GlobSetBuilder) -> Seq<Seq<char>>;

/// Whether compiling this list of pattern texts into one matcher succeeds:
/// the outcome of `GlobSetBuilder::build`, which depends on the texts
/// alone. The crate compiles every glob through `glob_new`, with default
/// options, so the texts determine the compiled globs.
pub uninterp spec fn globset_buildable(patterns: Seq<Seq<char>>) -> bool;

/// Whether any pattern in the allow-list matches the path.
pub open spec fn allow_match(allowed: Set<Seq<char>>, path: Seq<char>) -> bool {
    exists|p: Seq<char>| #[trigger] allowed.contains(p) && glob_match(p, path)
}

/// Why a path failed to match the allow-list.
#[derive(Debug)]
pub enum MatchError {
    /// A matcher could not be built from the patterns.
    Glob(globset::Error),
    /// No pattern matched; the rejected path is carried along.
    NoMatch(String),
}

/// Relies on `globset::Glob::new`: compiling succeeds exactly on valid glob
/// syntax, and the compiled glob holds the given pattern text.
#[verifier::external_body]
fn glob_new(pattern: &str) -> (r: Result<globset::Glob, globset::Error>)
    ensures
        r is Ok <==> glob_syntax_ok(pattern@),
        r matches Ok(g) ==> glob_pattern(g) == pattern@,
{
    globset::Glob::new(pattern)
}

/// Relies on `globset::GlobSetBuilder::new`: a fresh builder holds no
/// patterns.
#[verifier::external_body]
fn globset_builder_new() -> (b: globset::GlobSetBuilder)
    ensures
        builder_patterns(b) == Seq::<Seq<char>>::empty(),
{
    globset::GlobSetBuilder::new()
}

/// Relies on `globset::GlobSetBuilder::add`: it appends one glob to the set
/// being built.
#[verifier::external_body]
fn globset_builder_add(b: &mut globset::GlobSetBuilder, g: globset::Glob)
    ensures
        builder_patterns(*final(b)) == builder_patterns(*old(b)).push(glob_pattern(g)),
{
    b.add(g);
}

/// Relies on `globset::GlobSetBuilder::build`: on success the compiled set
/// holds exactly the patterns added so far, in order, and whether the build
/// succeeds depends on those patterns alone.
#[verifier::external_body]
fn globset_builder_build(b: &globset::GlobSetBuilder) -> (r: Result<
    globset::GlobSet,
    globset::Error,
>)
    ensures
        r matches Ok(s) ==> globset_patterns(s) == builder_patterns(*b),
        globset_buildable(builder_patterns(*b)) ==> r is Ok,
{
    b.build()
}

/// Relies on `globset::GlobSet::matches`: it returns the indices of exactly
/// the patterns that match the path, in ascending order.
#[verifier::external_body]
fn globset_match_indices(s: &globset::GlobSet, path: &str) -> (r: Vec<usize>)
    ensures
        forall|k: int|
            0 <= k < r@.len() ==> (#[trigger] r@[k]) < globset_patterns(*s).len() && glob_match(
                globset_patterns(*s)[r@[k] as int],
                path@,
            ),
        forall|j: int|
            0 <= j < globset_patterns(*s).len() && glob_match(
                #[trigger] globset_patterns(*s)[j],
                path@,
            ) ==> r@.contains(j as usize),
        forall|k1: int, k2: int| 0 <= k1 < k2 < r@.len() ==> r@[k1] < r@[k2],
{
    s.matches(path)
}

/// Compiles the caller's patterns into one matcher. Any syntactically
/// invalid pattern fails the whole build; with every pattern valid, the
/// build succeeds whenever the compiled set itself is buildable.
pub fn build_globset(patterns: Vec<String>) -> (r: Result<globset::GlobSet, globset::Error>)
    ensures
        r matches Ok(s) ==> globset_patterns(s) == patterns.deep_view(),
        (exists|i: int|
            0 <= i < patterns.deep_view().len() && !glob_syntax_ok(
                #[trigger] patterns.deep_view()[i],
            )) ==> r is Err,
        (forall|i: int|
            0 <= i < patterns.deep_view().len() ==> glob_syntax_ok(
                #[trigger] patterns.deep_view()[i],
            )) && globset_buildable(patterns.deep_view()) ==> r is Ok,
{
    let ghost ps = patterns.deep_view();
    let mut b = globset_builder_new();
    let n = patterns.len();
    let mut i: usize = 0;
    proof {
        assert(ps.len() == patterns@.len());
        assert(builder_patterns(b) =~= ps.take(0));
    }
    while i < n
        invariant
            n == patterns@.len(),
            ps == patterns.deep_view(),
            ps.len() == n,
            i <= n,
            builder_patterns(b) == ps.take(i as int),
            forall|j: int| 0 <= j < i ==> glob_syntax_ok(#[trigger] ps[j]),
        decreases n - i,
    {
        let p = &patterns[i];
        proof {
            assert(p@ == ps[i as int]);
        }
        match glob_new(p.as_str()) {
            Ok(g) => {
                globset_builder_add(&mut b, g);
                proof {
                    assert(ps.take(i + 1) =~= ps.take(i as int).push(ps[i as int]));
                }
            },
            Err(e) => {
                return Err(e);
            },
        }
        i = i + 1;
    }
    proof {
        assert(ps.take(n as int) =~= ps);
    }
    globset_builder_build(&b)
}

/// The smallest index of an allow-list pattern matching the path, or a
/// `NoMatch` carrying the path when none does.
pub fn is_glob_match(matchers: &globset::GlobSet, glob: &str) -> (r: Result<usize, MatchError>)
    ensures
        r is Ok <==> (exists|j: int|
            0 <= j < globset_patterns(*matchers).len() && glob_match(
                #[trigger] globset_patterns(*matchers)[j],
                glob@,
            )),
        r matches Ok(i) ==> i < globset_patterns(*matchers).len() && glob_match(
            globset_patterns(*matchers)[i as int],
            glob@,
        ) && (forall|j: int|
            0 <= j < i ==> !glob_match(#[trigger] globset_patterns(*matchers)[j], glob@)),
        r matches Err(e) ==> (e matches MatchError::NoMatch(s) && s@ == glob@),
{
    let v = globset_match_indices(matchers, glob);
    if v.len() == 0 {
        proof {
            if exists|j: int|
                0 <= j < globset_patterns(*matchers).len() && glob_match(
                    #[trigger] globset_patterns(*matchers)[j],
                    glob@,
                ) {
                let j = choose|j: int|
                    0 <= j < globset_patterns(*matchers).len() && glob_match(
                        #[trigger] globset_patterns(*matchers)[j],
                        glob@,
                    );
                assert(v@.contains(j as usize));
            }
        }
        Err(MatchError::NoMatch(glob.to_owned()))
    } else {
        let i = v[0];
        proof {
            assert(glob_match(globset_patterns(*matchers)[v@[0] as int], glob@));
            assert forall|j: int| 0 <= j < i implies !glob_match(
                #[trigger] globset_patterns(*matchers)[j],
                glob@,
            ) by {
                if glob_match(globset_patterns(*matchers)[j], glob@) {
                    assert(v@.contains(j as usize));
                    let k = choose|k: int| 0 <= k < v@.len() && v@[k] == j as usize;
                    if k > 0 {
                        assert(v@[0] < v@[k]);
                    }
                }
            }
        }
        Ok(i)
    }
}

} // verus!
