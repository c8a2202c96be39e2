//! The glob sets of the `globset` crate, as this library sees them.
//!
//! Nothing here is proved: each item states what the library relies on.

use vstd::prelude::*;
use vstd::utf8::encode_utf8;
use globset::{Error, Glob, GlobSet, GlobSetBuilder};

verus! {

/// `globset::Glob`, one parsed pattern.
#[verifier::external_type_specification]
#[verifier::external_body]
pub struct ExGlob(Glob);

/// `globset::GlobSetBuilder`, the patterns gathered for a set.
#[verifier::external_type_specification]
#[verifier::external_body]
pub struct ExGlobSetBuilder(GlobSetBuilder);

/// `globset::GlobSet`, a set of patterns that are matched together.
#[verifier::external_type_specification]
#[verifier::external_body]
pub struct ExGlobSet(GlobSet);

/// `globset::Error`, why a pattern or a set could not be built.
#[verifier::external_type_specification]
#[verifier::external_body]
pub struct ExGlobError(Error);

/// Whether `Glob::new` accepts the pattern.
pub uninterp spec fn glob_parses(pattern: Seq<char>) -> bool;

/// What a glob was made from; for one that `Glob::new` made, its pattern.
pub uninterp spec fn glob_source(glob: Glob) -> Seq<char>;

/// The globs that a builder holds, each by what it was made from, in the
/// order in which they were added.
pub uninterp spec fn builder_globs(builder: GlobSetBuilder) -> Seq<Seq<char>>;

/// The globs that a set holds, each by what it was made from, in the
/// order in which they were added to its builder.
pub uninterp spec fn set_globs(set: GlobSet) -> Seq<Seq<char>>;

/// Whether a set can be built from these globs.
pub uninterp spec fn globs_compile(globs: Seq<Seq<char>>) -> bool;

/// Whether one of these globs matches the path.
pub uninterp spec fn globs_match(globs: Seq<Seq<char>>, path: Seq<char>) -> bool;

/// `Glob::new` parses a pattern with the default options. Whether it
/// succeeds depends on the pattern alone, and the glob it returns is made
/// from that pattern.
pub assume_specification[ Glob::new ](glob: &str) -> (r: Result<Glob, Error>)
    ensures
        r is Ok == glob_parses(glob@),
        r matches Ok(g) ==> glob_source(g) == glob@,
;

/// `GlobSetBuilder::new` makes a builder that holds no glob.
pub assume_specification[ GlobSetBuilder::new ]() -> (builder: GlobSetBuilder)
    ensures
        builder_globs(builder) == Seq::<Seq<char>>::empty(),
;

/// `GlobSetBuilder::add` puts the glob after those the builder holds.
#[verifier::external_body]
pub(crate) fn builder_add(builder: &mut GlobSetBuilder, glob: Glob)
    ensures
        builder_globs(*final(builder)) == builder_globs(*old(builder)).push(glob_source(glob)),
{
    builder.add(glob);
}

/// The most bytes that the patterns of one set may have in all.
pub const MAX_PATTERN_BYTES: usize = 1048576;

/// How many bytes the globs have in all, as UTF-8.
pub open spec fn pattern_bytes(globs: Seq<Seq<char>>) -> nat
    decreases globs.len(),
{
    if globs.len() == 0 {
        0
    } else {
        pattern_bytes(globs.drop_last()) + encode_utf8(globs.last()).len()
    }
}

/// `GlobSetBuilder::build` makes a set of the globs that the builder
/// holds. Whether it succeeds depends on those globs alone. The crate
/// builds search automata over parts of the patterns and panics where
/// one cannot be built, which takes patterns of some gigabytes: the
/// call is made only for patterns far below that.
#[verifier::external_body]
pub(crate) fn builder_build(builder: &GlobSetBuilder) -> (r: Result<GlobSet, Error>)
    requires
        pattern_bytes(builder_globs(*builder)) <= MAX_PATTERN_BYTES,
    ensures
        r is Ok == globs_compile(builder_globs(*builder)),
        r matches Ok(set) ==> set_globs(set) == builder_globs(*builder),
{
    builder.build()
}

/// `GlobSet::is_match` says whether any glob of the set matches the path;
/// the answer depends on the globs and the path alone.
#[verifier::external_body]
pub(crate) fn set_is_match(set: &GlobSet, path: &str) -> (r: bool)
    ensures
        r == globs_match(set_globs(*set), path@),
{
    set.is_match(path)
}

} // verus!
