//! The ignore set: globs that name what a walk passes over.

use vstd::prelude::*;
use vstd::string::StringExecFns;
use globset::{Glob, GlobSet, GlobSetBuilder};
use crate::globs::{
    builder_add, builder_build, builder_globs, glob_parses, globs_compile, pattern_bytes,
    set_globs, MAX_PATTERN_BYTES,
};
use crate::text::strings;

verus! {

/// Why no ignore set could be built.
#[derive(Debug, PartialEq, Eq)]
pub enum MatcherError {
    /// The patterns have more than `MAX_PATTERN_BYTES` bytes in all.
    TooLarge,
    /// The pattern at `index` is no glob.
    InvalidPattern { index: usize, pattern: String },
    /// Each pattern is a glob, but no set could be built of them.
    BuildFailed,
}

/// The text of each error.
pub open spec fn matcher_message_of(e: MatcherError) -> Seq<char> {
    match e {
        MatcherError::TooLarge => "Too many ignore patterns"@,
        MatcherError::InvalidPattern { pattern, .. } => "Invalid ignore pattern: "@ + pattern@,
        MatcherError::BuildFailed => "Failed to build GlobSet from ignore patterns"@,
    }
}

impl MatcherError {
    /// The text of the error.
    pub fn message(&self) -> (r: String)
        ensures
            r@ == matcher_message_of(*self),
    {
        match self {
            MatcherError::TooLarge => String::from_str("Too many ignore patterns"),
            MatcherError::InvalidPattern { pattern, .. } => {
                let mut out = String::from_str("Invalid ignore pattern: ");
                out.append(pattern.as_str());
                out
            },
            MatcherError::BuildFailed => String::from_str(
                "Failed to build GlobSet from ignore patterns",
            ),
        }
    }
}

/// Whether the first `n` of `patterns` are all globs.
pub open spec fn all_parse(patterns: Seq<Seq<char>>, n: int) -> bool {
    forall|j: int| 0 <= j < n ==> glob_parses(#[trigger] patterns[j])
}

/// Whether the patterns have more than `MAX_PATTERN_BYTES` bytes in all.
fn too_large(patterns: &[String]) -> (r: bool)
    ensures
        r == (pattern_bytes(strings(patterns@)) > MAX_PATTERN_BYTES),
{
    let mut total: usize = 0;
    let mut i: usize = 0;
    assert(strings(patterns@).take(0) =~= Seq::<Seq<char>>::empty());
    while i < patterns.len()
        invariant
            i <= patterns.len(),
            total == pattern_bytes(strings(patterns@).take(i as int)),
            total <= MAX_PATTERN_BYTES,
        decreases patterns.len() - i,
    {
        let ghost upto = strings(patterns@).take(i + 1);
        assert(upto.drop_last() =~= strings(patterns@).take(i as int));
        assert(upto.last() == patterns@[i as int]@);
        let size = patterns[i].as_str().as_bytes().len();
        if size > MAX_PATTERN_BYTES - total {
            proof {
                lemma_pattern_bytes_grow(strings(patterns@), i + 1);
            }
            return true;
        }
        total = total + size;
        i += 1;
    }
    assert(strings(patterns@).take(i as int) =~= strings(patterns@));
    false
}

/// More globs have no fewer bytes.
proof fn lemma_pattern_bytes_grow(globs: Seq<Seq<char>>, n: int)
    requires
        0 <= n <= globs.len(),
    ensures
        pattern_bytes(globs.take(n)) <= pattern_bytes(globs),
    decreases globs.len() - n,
{
    if n < globs.len() {
        lemma_pattern_bytes_grow(globs, n + 1);
        assert(globs.take(n + 1).drop_last() =~= globs.take(n));
    } else {
        assert(globs.take(n) =~= globs);
    }
}

/// Builds the ignore set of `patterns`: none where there is no pattern,
/// else a set that holds a glob for each pattern, in order. Patterns of
/// more than `MAX_PATTERN_BYTES` bytes in all are refused; then the first
/// pattern that is no glob is reported; then a set that cannot be built.
pub fn build_ignore_matcher(patterns: &[String]) -> (r: Result<Option<GlobSet>, MatcherError>)
    ensures
        match r {
            Ok(None) => patterns@.len() == 0,
            Ok(Some(set)) => {
                &&& patterns@.len() > 0
                &&& pattern_bytes(strings(patterns@)) <= MAX_PATTERN_BYTES
                &&& all_parse(strings(patterns@), patterns@.len() as int)
                &&& globs_compile(strings(patterns@))
                &&& set_globs(set) == strings(patterns@)
            },
            Err(MatcherError::TooLarge) => pattern_bytes(strings(patterns@)) > MAX_PATTERN_BYTES,
            Err(MatcherError::InvalidPattern { index, pattern }) => {
                &&& pattern_bytes(strings(patterns@)) <= MAX_PATTERN_BYTES
                &&& index < patterns@.len()
                &&& all_parse(strings(patterns@), index as int)
                &&& !glob_parses(patterns@[index as int]@)
                &&& pattern@ == patterns@[index as int]@
            },
            Err(MatcherError::BuildFailed) => {
                &&& patterns@.len() > 0
                &&& pattern_bytes(strings(patterns@)) <= MAX_PATTERN_BYTES
                &&& all_parse(strings(patterns@), patterns@.len() as int)
                &&& !globs_compile(strings(patterns@))
            },
        },
{
    if patterns.len() == 0 {
        return Ok(None);
    }
    if too_large(patterns) {
        return Err(MatcherError::TooLarge);
    }
    let mut builder = GlobSetBuilder::new();
    let mut i: usize = 0;
    assert(builder_globs(builder) =~= strings(patterns@).take(0));
    while i < patterns.len()
        invariant
            i <= patterns.len(),
            pattern_bytes(strings(patterns@)) <= MAX_PATTERN_BYTES,
            all_parse(strings(patterns@), i as int),
            builder_globs(builder) == strings(patterns@).take(i as int),
        decreases patterns.len() - i,
    {
        match Glob::new(patterns[i].as_str()) {
            Ok(glob) => {
                builder_add(&mut builder, glob);
                assert(builder_globs(builder) =~= strings(patterns@).take(i + 1));
            },
            Err(_) => {
                return Err(
                    MatcherError::InvalidPattern { index: i, pattern: patterns[i].clone() },
                );
            },
        }
        i += 1;
    }
    assert(strings(patterns@).take(i as int) =~= strings(patterns@));
    match builder_build(&builder) {
        Ok(set) => Ok(Some(set)),
        Err(_) => Err(MatcherError::BuildFailed),
    }
}

} // verus!
